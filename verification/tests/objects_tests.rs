use gitr::codec::{decode, flate2compress2, sha1hashing2};
use gitr::file_manager::ObjectStore;
use gitr::gitr_errors::GitrError;
use gitr::objects::blob::{Blob, TreeEntry};
use gitr::objects::commit::Commit;
use gitr::objects::git_object::{
    canonical_bytes, hash_object, is_valid_id, split_canonical, GitObject, ObjectKind,
};
use gitr::objects::tag::Tag;
use gitr::objects::tree::{get_formated_hash, Tree};

fn hex(bytes: &[u8]) -> String {
    bytes.iter().map(|b| format!("{:02x}", b)).collect()
}

fn text(bytes: &[u8]) -> String {
    String::from_utf8(bytes.to_vec()).unwrap()
}

const ID_A: &[u8] = b"74730d410fcb6603ace96f1dc55ea6196122532d";
const ID_B: &[u8] = b"7d1665144a3a975c05f1f43902ddaf084e784dbe";
const ID_C: &[u8] = b"5a3f6be755bbb7deae50065988cbfa1ffa9ab68a";

#[test]
fn digest_of_nothing_is_the_known_one() {
    assert_eq!(hex(&sha1hashing2(b"")), "da39a3ee5e6b4b0d3255bfef95601890afd80709");
}

#[test]
fn digest_of_abc_is_the_known_one() {
    assert_eq!(hex(&sha1hashing2(b"abc")), "a9993e364706816aba3e25717850c26c9cd0d89d");
}

#[test]
fn compression_changes_the_bytes_and_is_undone() {
    let data = b"hola mundo hola mundo hola mundo".to_vec();
    let stored = flate2compress2(&data).unwrap();
    assert_ne!(stored, data);
    assert_eq!(stored[0], 0x78);
    assert_eq!(decode(&stored).unwrap(), data);
}

#[test]
fn decompression_rejects_what_is_no_stream() {
    assert_eq!(decode(b"no es zlib"), Err(GitrError::CompressionError));
    assert_eq!(decode(b""), Err(GitrError::CompressionError));
}

#[test]
fn canonical_form_is_kind_length_nul_payload() {
    assert_eq!(canonical_bytes(ObjectKind::Blob, b"hola"), b"blob 4\0hola".to_vec());
    assert_eq!(canonical_bytes(ObjectKind::Commit, b""), b"commit 0\0".to_vec());
    assert_eq!(
        canonical_bytes(ObjectKind::Tree, b"0123456789ab"),
        b"tree 12\x000123456789ab".to_vec()
    );
}

#[test]
fn canonical_form_splits_back() {
    assert_eq!(split_canonical(b"blob 4\0hola"), Some((ObjectKind::Blob, b"hola".to_vec())));
    assert_eq!(split_canonical(b"tag 0\0"), Some((ObjectKind::Tag, Vec::new())));
    assert_eq!(split_canonical(b"blob 5\0hola"), None);
    assert_eq!(split_canonical(b"blob 04\0hola"), None);
    assert_eq!(split_canonical(b"blob 4 hola"), None);
    assert_eq!(split_canonical(b"blob4\0hola"), None);
    assert_eq!(split_canonical(b"bolb 4\0hola"), None);
}

#[test]
fn blob_ids_are_the_known_ones() {
    let blob = Blob::new(b"hello world\n".to_vec()).unwrap();
    assert_eq!(text(&blob.get_hash()), "3b18e512dba79e4c8300dd08aeb37f8e728b8dad");
    let empty = Blob::new(Vec::new()).unwrap();
    assert_eq!(text(&empty.get_hash()), "e69de29bb2d1d6434b8b29ae775ad8c2e48c5391");
    assert_eq!(
        hash_object(ObjectKind::Blob, b"hello world\n"),
        b"3b18e512dba79e4c8300dd08aeb37f8e728b8dad".to_vec()
    );
}

#[test]
fn hashing_twice_gives_the_same_id() {
    let a = Blob::new(b"lo mismo".to_vec()).unwrap();
    let b = Blob::new(b"lo mismo".to_vec()).unwrap();
    let c = Blob::new(b"otra cosa".to_vec()).unwrap();
    assert_eq!(a.get_hash(), b.get_hash());
    assert_ne!(a.get_hash(), c.get_hash());
}

#[test]
fn id_is_of_the_uncompressed_canonical_form() {
    let blob = Blob::new(b"contenido".to_vec()).unwrap();
    let stored = blob.get_data().unwrap();
    let canonical = decode(&stored).unwrap();
    assert_eq!(canonical, b"blob 9\0contenido".to_vec());
    assert_eq!(hex(&sha1hashing2(&canonical)).into_bytes(), blob.get_hash());
    assert_ne!(hex(&sha1hashing2(&stored)).into_bytes(), blob.get_hash());
}

#[test]
fn ids_are_told_from_other_text() {
    assert!(is_valid_id(ID_A));
    assert!(!is_valid_id(b"74730d410fcb6603ace96f1dc55ea6196122532"));
    assert!(!is_valid_id(b"74730D410FCB6603ACE96F1DC55EA6196122532D"));
    assert!(!is_valid_id(b"None"));
    assert!(!is_valid_id(b"zz730d410fcb6603ace96f1dc55ea6196122532d"));
}

#[test]
fn formatted_hash_is_twenty_bytes() {
    let raw = get_formated_hash(ID_A).unwrap();
    assert_eq!(raw.len(), 20);
    assert_eq!(raw[0], 0x74);
    assert_eq!(raw[19], 0x2d);
    assert_eq!(get_formated_hash(b"1234"), Err(GitrError::MalformedObject));
}

#[test]
fn empty_tree_has_the_known_id() {
    let tree = Tree::new(Vec::new()).unwrap();
    assert_eq!(text(&tree.get_hash()), "4b825dc642cb6eb9a060e54bf8d69288fbee4904");
    assert_eq!(tree.len(), 0);
}

#[test]
fn tree_entries_are_sorted_by_name() {
    let entries = vec![
        (b"repo/zeta.txt".to_vec(), TreeEntry::Blob(Blob::new(b"z".to_vec()).unwrap())),
        (b"repo/alfa.txt".to_vec(), TreeEntry::Blob(Blob::new(b"a".to_vec()).unwrap())),
        (b"medio".to_vec(), TreeEntry::Tree(Tree::new(Vec::new()).unwrap())),
    ];
    let tree = Tree::new(entries).unwrap();
    assert_eq!(tree.len(), 3);
    let (t0, n0, i0) = tree.get_entry(0);
    let (t1, n1, _) = tree.get_entry(1);
    let (t2, n2, _) = tree.get_entry(2);
    assert_eq!((t0, n0), (false, b"alfa.txt".to_vec()));
    assert_eq!((t1, n1), (true, b"medio".to_vec()));
    assert_eq!((t2, n2), (false, b"zeta.txt".to_vec()));
    assert_eq!(i0, Blob::new(b"a".to_vec()).unwrap().get_hash());
}

#[test]
fn tree_payload_is_mode_name_nul_and_raw_id() {
    let blob = Blob::new(b"a".to_vec()).unwrap();
    let raw = get_formated_hash(&blob.get_hash()).unwrap();
    let tree = Tree::new(vec![(b"a.txt".to_vec(), TreeEntry::Blob(blob))]).unwrap();
    let mut expected = b"100644 a.txt\0".to_vec();
    expected.extend_from_slice(&raw);
    assert_eq!(tree.get_content(), expected);
    let sub = Tree::new(vec![(b"dir".to_vec(), TreeEntry::Tree(tree))]).unwrap();
    assert!(sub.get_content().starts_with(b"40000 dir\0"));
}

#[test]
fn tree_reads_back_from_its_payload() {
    let entries = vec![
        (b"b.txt".to_vec(), TreeEntry::Blob(Blob::new(b"b".to_vec()).unwrap())),
        (b"a.txt".to_vec(), TreeEntry::Blob(Blob::new(b"a".to_vec()).unwrap())),
    ];
    let tree = Tree::new(entries).unwrap();
    let again = Tree::new_from_packfile(&tree.get_content()).unwrap();
    assert_eq!(again.get_hash(), tree.get_hash());
    assert_eq!(again.get_content(), tree.get_content());
    assert_eq!(again.get_entry(1).1, b"b.txt".to_vec());
}

#[test]
fn tree_with_a_nul_in_a_name_is_refused() {
    let entries = vec![(b"a\0b".to_vec(), TreeEntry::Blob(Blob::new(b"a".to_vec()).unwrap()))];
    assert_eq!(Tree::new(entries).err(), Some(GitrError::MalformedObject));
}

#[test]
fn malformed_tree_payloads_are_refused() {
    assert_eq!(Tree::new_from_packfile(b"100644 a.txt").err(), Some(GitrError::MalformedObject));
    assert_eq!(
        Tree::new_from_packfile(b"100644 a.txt\0short").err(),
        Some(GitrError::MalformedObject)
    );
    let mut other_mode = b"123456 a.txt\0".to_vec();
    other_mode.extend_from_slice(&[7u8; 20]);
    assert_eq!(Tree::new_from_packfile(&other_mode).unwrap().get_content(), other_mode);
    let mut unsorted = b"100644 b\0".to_vec();
    unsorted.extend_from_slice(&[1u8; 20]);
    unsorted.extend_from_slice(b"100644 a\0");
    unsorted.extend_from_slice(&[2u8; 20]);
    assert_eq!(Tree::new_from_packfile(&unsorted).err(), Some(GitrError::MalformedObject));
}

fn sample_commit(parents: Vec<Vec<u8>>) -> Commit {
    Commit::new_from_packfile(
        ID_A.to_vec(),
        parents,
        b"cliente <test@mail> 1702329287 -0300".to_vec(),
        b"otro <otro@mail> 1702329288 -0300".to_vec(),
        b"primer commit\n".to_vec(),
    )
    .unwrap()
}

#[test]
fn commit_payload_has_the_lines_in_order() {
    let commit = sample_commit(vec![ID_B.to_vec()]);
    let expected = b"tree 74730d410fcb6603ace96f1dc55ea6196122532d\n\
parent 7d1665144a3a975c05f1f43902ddaf084e784dbe\n\
author cliente <test@mail> 1702329287 -0300\n\
committer otro <otro@mail> 1702329288 -0300\n\
\n\
primer commit\n"
        .to_vec();
    assert_eq!(commit.get_content(), expected);
}

#[test]
fn commit_without_parents_has_no_parent_line() {
    let by_marker = sample_commit(vec![b"None".to_vec()]);
    let by_nothing = sample_commit(Vec::new());
    assert_eq!(by_marker.get_hash(), by_nothing.get_hash());
    assert!(by_marker.get_parent_ids().is_empty());
    assert!(by_marker.get_content().starts_with(
        b"tree 74730d410fcb6603ace96f1dc55ea6196122532d\nauthor "
    ));
}

#[test]
fn commit_reads_back_from_its_payload() {
    for parents in [Vec::new(), vec![ID_B.to_vec()], vec![ID_B.to_vec(), ID_C.to_vec()]] {
        let commit = sample_commit(parents.clone());
        let again = Commit::new_commit_from_string(&commit.get_content()).unwrap();
        assert_eq!(again.get_hash(), commit.get_hash());
        assert_eq!(again.get_tree(), ID_A.to_vec());
        assert_eq!(again.get_parent_ids(), parents);
        assert_eq!(again.get_author(), b"cliente <test@mail> 1702329287 -0300".to_vec());
        assert_eq!(again.get_committer(), b"otro <otro@mail> 1702329288 -0300".to_vec());
        assert_eq!(again.get_message(), b"primer commit\n".to_vec());
    }
}

#[test]
fn commit_reads_back_from_its_canonical_form() {
    let commit = sample_commit(vec![ID_B.to_vec()]);
    let canonical = canonical_bytes(ObjectKind::Commit, &commit.get_content());
    let again = Commit::new_commit_from_data(&canonical).unwrap();
    assert_eq!(again.get_hash(), commit.get_hash());
    let as_blob = canonical_bytes(ObjectKind::Blob, &commit.get_content());
    assert_eq!(Commit::new_commit_from_data(&as_blob).err(), Some(GitrError::MalformedObject));
}

#[test]
fn malformed_commits_are_refused() {
    let bad_tree = Commit::new_from_packfile(
        b"no es un id".to_vec(),
        Vec::new(),
        b"a".to_vec(),
        b"c".to_vec(),
        b"m".to_vec(),
    );
    assert_eq!(bad_tree.err(), Some(GitrError::MalformedObject));
    let three = Commit::new_from_packfile(
        ID_A.to_vec(),
        vec![ID_A.to_vec(), ID_B.to_vec(), ID_C.to_vec()],
        b"a".to_vec(),
        b"c".to_vec(),
        b"m".to_vec(),
    );
    assert_eq!(three.err(), Some(GitrError::MalformedObject));
    let line_feed = Commit::new_from_packfile(
        ID_A.to_vec(),
        Vec::new(),
        b"a\nb".to_vec(),
        b"c".to_vec(),
        b"m".to_vec(),
    );
    assert_eq!(line_feed.err(), Some(GitrError::MalformedObject));
    assert_eq!(
        Commit::new_commit_from_string(b"author a\ncommitter c\n\nm").err(),
        Some(GitrError::MalformedObject)
    );
    assert_eq!(
        Commit::new_commit_from_string(
            b"tree 74730d410fcb6603ace96f1dc55ea6196122532d\nauthor a\ncommitter c\nm"
        )
        .err(),
        Some(GitrError::MalformedObject)
    );
}

#[test]
fn tag_reads_back_from_its_payload() {
    let tag = Tag::new_from_packfile(
        b"v1.0".to_vec(),
        b"primera version\n".to_vec(),
        ID_A.to_vec(),
        b"cliente <test@mail> 1702329287 -0300".to_vec(),
    )
    .unwrap();
    let expected = b"object 74730d410fcb6603ace96f1dc55ea6196122532d\n\
type commit\n\
tag v1.0\n\
tagger cliente <test@mail> 1702329287 -0300\n\
\n\
primera version\n"
        .to_vec();
    assert_eq!(tag.get_content(), expected);
    let again = Tag::new_tag_from_string(&expected).unwrap();
    assert_eq!(again.get_hash(), tag.get_hash());
    assert_eq!(again.get_commit_hash(), ID_A.to_vec());
    let canonical = canonical_bytes(ObjectKind::Tag, &expected);
    assert_eq!(Tag::new_tag_from_data(&canonical).unwrap().get_hash(), tag.get_hash());
}

#[test]
fn malformed_tags_are_refused() {
    let bad = Tag::new_from_packfile(b"v".to_vec(), b"m".to_vec(), b"x".to_vec(), b"t".to_vec());
    assert_eq!(bad.err(), Some(GitrError::MalformedObject));
    assert_eq!(
        Tag::new_tag_from_string(
            b"object 74730d410fcb6603ace96f1dc55ea6196122532d\ntype tree\ntag v\ntagger t\n\nm"
        )
        .err(),
        Some(GitrError::MalformedObject)
    );
}

fn all_kinds() -> Vec<GitObject> {
    let blob = Blob::new(b"contenido del archivo\n".to_vec()).unwrap();
    let tree = Tree::new(vec![(
        b"archivo.txt".to_vec(),
        TreeEntry::Blob(Blob::new(b"contenido del archivo\n".to_vec()).unwrap()),
    )])
    .unwrap();
    let commit = Commit::new_from_packfile(
        tree.get_hash(),
        Vec::new(),
        b"cliente <test@mail> 1702329287 -0300".to_vec(),
        b"cliente <test@mail> 1702329287 -0300".to_vec(),
        b"mensaje\n".to_vec(),
    )
    .unwrap();
    let tag = Tag::new_from_packfile(
        b"v1".to_vec(),
        b"etiqueta\n".to_vec(),
        commit.get_hash(),
        b"cliente <test@mail> 1702329287 -0300".to_vec(),
    )
    .unwrap();
    vec![
        GitObject::Blob(blob),
        GitObject::Tree(tree),
        GitObject::Commit(commit),
        GitObject::Tag(tag),
    ]
}

#[test]
fn decoding_what_was_encoded_gives_the_object_back() {
    for object in all_kinds() {
        let (id, stored) = object.encode().unwrap();
        let again = GitObject::decode(&stored).unwrap();
        assert_eq!(again.get_kind(), object.get_kind());
        assert_eq!(again.get_hash(), id);
        assert_eq!(again.get_content(), object.get_content());
        assert_eq!(again.get_canonical(), object.get_canonical());
    }
}

#[test]
fn type_tags_are_the_ones_of_the_pack_format() {
    let kinds = all_kinds();
    assert_eq!(kinds[0].get_type(), 3);
    assert_eq!(kinds[1].get_type(), 2);
    assert_eq!(kinds[2].get_type(), 1);
    assert_eq!(kinds[3].get_type(), 4);
    assert_eq!(ObjectKind::from_tag(1), Some(ObjectKind::Commit));
    assert_eq!(ObjectKind::from_tag(5), None);
    assert_eq!(ObjectKind::from_name(b"tree"), Some(ObjectKind::Tree));
    assert_eq!(ObjectKind::from_name(b"arbol"), None);
}

#[test]
fn decoding_fails_as_it_should() {
    assert_eq!(GitObject::decode(b"basura").err(), Some(GitrError::CompressionError));
    let no_nul = flate2compress2(b"blob 4 hola").unwrap();
    assert_eq!(GitObject::decode(&no_nul).err(), Some(GitrError::MalformedObject));
    let bad_kind = flate2compress2(b"cosa 4\0hola").unwrap();
    assert_eq!(GitObject::decode(&bad_kind).err(), Some(GitrError::MalformedObject));
    let bad_tree = flate2compress2(b"tree 4\0hola").unwrap();
    assert_eq!(GitObject::decode(&bad_tree).err(), Some(GitrError::MalformedObject));
    assert_eq!(
        GitObject::from_canonical(b"commit 4\0hola").err(),
        Some(GitrError::MalformedObject)
    );
}

#[test]
fn store_puts_and_gets() {
    let mut store = ObjectStore::new();
    let objects = all_kinds();
    for object in &objects {
        let id = store.put(object).unwrap();
        assert_eq!(id, object.get_hash());
    }
    assert_eq!(store.objects.len(), 4);
    for object in &objects {
        let found = store.get(&object.get_hash()).unwrap();
        assert_eq!(found.get_canonical(), object.get_canonical());
        assert!(store.contains(&object.get_hash()));
    }
    assert_eq!(store.get(ID_A).err(), Some(GitrError::ObjectNotFound));
    assert!(!store.contains(ID_A));
}

#[test]
fn storing_twice_changes_nothing() {
    let mut store = ObjectStore::new();
    let blob = Blob::new(b"una vez".to_vec()).unwrap();
    blob.save(&mut store).unwrap();
    let first = store.objects[0].data.clone();
    blob.save(&mut store).unwrap();
    store.put(&GitObject::Blob(Blob::new(b"una vez".to_vec()).unwrap())).unwrap();
    assert_eq!(store.objects.len(), 1);
    assert_eq!(store.objects[0].data, first);
    assert_eq!(store.objects[0].id, blob.get_hash());
    store.write_object(b"otra cosa".to_vec(), blob.get_hash());
    assert_eq!(store.objects[0].data, first);
}

#[test]
fn stored_form_is_the_compressed_canonical_form() {
    let mut store = ObjectStore::new();
    let blob = Blob::new(b"hola".to_vec()).unwrap();
    blob.save(&mut store).unwrap();
    assert_eq!(store.get_object_bytes(&blob.get_hash()).unwrap(), b"blob 4\0hola".to_vec());
    assert_eq!(store.objects[0].data, blob.get_data().unwrap());
    assert_eq!(store.get_all_objects_hashes(), vec![blob.get_hash()]);
}

#[test]
fn a_tree_is_the_same_whatever_the_order_of_its_entries() {
    let blob = |text: &[u8]| TreeEntry::Blob(Blob::new(text.to_vec()).unwrap());
    let given = |paths: &[(&[u8], &[u8])]| -> Vec<(Vec<u8>, TreeEntry)> {
        paths.iter().map(|(path, text)| (path.to_vec(), blob(text))).collect()
    };
    let one = Tree::new(given(&[
        (b"repo/b/x.txt", b"de b"),
        (b"repo/z.txt", b"zeta"),
        (b"repo/a/x.txt", b"de a"),
        (b"repo/a.txt", b"a"),
    ]))
    .unwrap();
    let other = Tree::new(given(&[
        (b"repo/a.txt", b"a"),
        (b"repo/a/x.txt", b"de a"),
        (b"repo/z.txt", b"zeta"),
        (b"repo/b/x.txt", b"de b"),
    ]))
    .unwrap();
    assert_eq!(one.get_hash(), other.get_hash());
    assert_eq!(one.get_data().unwrap(), other.get_data().unwrap());
    assert_eq!(one.get_entry(0).1, b"a.txt".to_vec());
    assert_eq!(one.get_entry(1).1, b"x.txt".to_vec());
    assert_eq!(one.get_entry(1).2, Blob::new(b"de a".to_vec()).unwrap().get_hash());
    assert_eq!(one.get_entry(2).1, b"x.txt".to_vec());
    assert_eq!(one.get_entry(2).2, Blob::new(b"de b".to_vec()).unwrap().get_hash());
    assert_eq!(one.get_entry(3).1, b"z.txt".to_vec());
}

#[test]
fn the_stored_form_of_a_blob_is_the_same_each_time() {
    let text = b"el mismo texto\n".to_vec();
    let first = Blob::new(text.clone()).unwrap();
    let second = Blob::new(text.clone()).unwrap();
    assert_eq!(first.get_hash(), second.get_hash());
    assert_eq!(first.get_data().unwrap(), second.get_data().unwrap());
    let canonical = [b"blob 15\0".to_vec(), text].concat();
    assert_eq!(decode(&first.get_data().unwrap()).unwrap(), canonical);
    assert_eq!(first.get_hash().len(), 40);
}

#[test]
fn a_tree_keeps_the_modes_that_it_was_written_with() {
    let id = |text: &[u8]| Blob::new(text.to_vec()).unwrap().get_hash();
    let raw = |hex: &[u8]| get_formated_hash(hex).unwrap();
    let mut payload = Vec::new();
    payload.extend_from_slice(b"100755 a\0");
    payload.extend_from_slice(&raw(&id(b"ejecutable")));
    payload.extend_from_slice(b"120000 b\0");
    payload.extend_from_slice(&raw(&id(b"enlace")));
    payload.extend_from_slice(b"40000 c\0");
    payload.extend_from_slice(&raw(b"4b825dc642cb6eb9a060e54bf8d69288fbee4904"));
    payload.extend_from_slice(b"100644 d\0");
    payload.extend_from_slice(&raw(&id(b"plano")));

    let tree = Tree::new_from_packfile(&payload).unwrap();
    assert_eq!(tree.get_content(), payload);
    assert_eq!(tree.len(), 4);
    assert_eq!(tree.get_entry(0), (false, b"a".to_vec(), id(b"ejecutable")));
    assert_eq!(tree.get_entry(1), (false, b"b".to_vec(), id(b"enlace")));
    assert!(tree.get_entry(2).0);
    assert!(!tree.get_entry(3).0);

    let canonical = [b"tree ".to_vec(), payload.len().to_string().into_bytes(), b"\0".to_vec(), payload.clone()].concat();
    assert_eq!(decode(&tree.get_data().unwrap()).unwrap(), canonical);
    let digest = sha1hashing2(&canonical);
    let hex: String = digest.iter().map(|b| format!("{:02x}", b)).collect();
    assert_eq!(tree.get_hash(), hex.into_bytes());

    match GitObject::decode(&tree.get_data().unwrap()).unwrap() {
        GitObject::Tree(read) => {
            assert_eq!(read.get_content(), payload);
            assert_eq!(read.get_hash(), tree.get_hash());
        }
        other => panic!("{:?}", other),
    }
    assert_eq!(Tree::new_from_packfile(b"").unwrap().len(), 0);
    assert_eq!(
        Tree::new_from_packfile(b"100755 a\0corto").err(),
        Some(GitrError::MalformedObject)
    );
}
