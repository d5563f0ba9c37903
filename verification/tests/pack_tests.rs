use gitr::codec::{flate2compress2, sha1hashing2};
use gitr::git_transport::deltas::{
    get_offset, parse_copy_instruction, read_varint, transform_delta, write_varint,
};
use gitr::git_transport::pack_file::{
    code, create_packfile, decode, extract_version, get_encoded_length, git_valid_object_from_packfile, pack_data_bruno, pack_objects, parse_git_object, parse_length, prepare_contents, read_object, read_pack_file, verify_header, PackFile,
};
use gitr::gitr_errors::GitrError;
use gitr::objects::blob::{Blob, TreeEntry};
use gitr::objects::commit::Commit;
use gitr::objects::git_object::GitObject;
use gitr::objects::tree::{get_formated_hash, Tree};

fn sample_objects() -> Vec<GitObject> {
    let blob = Blob::new(b"contenido del archivo\n".to_vec()).unwrap();
    let big = Blob::new(vec![b'x'; 5000]).unwrap();
    let tree = Tree::new(vec![(
        b"archivo.txt".to_vec(),
        TreeEntry::Blob(Blob::new(b"contenido del archivo\n".to_vec()).unwrap()),
    )])
    .unwrap();
    let commit = Commit::new_from_packfile(
        tree.get_hash(),
        Vec::new(),
        b"cliente <test@mail> 1702329287 -0300".to_vec(),
        b"cliente <test@mail> 1702329287 -0300".to_vec(),
        b"mensaje\n".to_vec(),
    )
    .unwrap();
    vec![
        GitObject::Commit(commit),
        GitObject::Tree(tree),
        GitObject::Blob(blob),
        GitObject::Blob(big),
    ]
}

#[test]
fn varints_are_seven_bits_least_significant_first() {
    assert_eq!(read_varint(&[0x05], 0), Ok((5, 1)));
    assert_eq!(read_varint(&[0x80, 0x01], 0), Ok((128, 2)));
    assert_eq!(read_varint(&[0xff, 0xac, 0x02, 0x7f], 1), Ok((300, 3)));
    assert_eq!(read_varint(&[0xff, 0xff, 0x03], 0), Ok((65535, 3)));
    assert_eq!(read_varint(&[0x80], 0), Err(GitrError::TruncatedPack));
    assert_eq!(read_varint(&[], 0), Err(GitrError::TruncatedPack));
    assert_eq!(read_varint(&[0x80; 12], 0), Err(GitrError::TruncatedPack));
    let mut long = vec![0x80u8; 11];
    long.push(0x01);
    assert_eq!(read_varint(&long, 0), Err(GitrError::MalformedObject));
}

#[test]
fn varints_read_back() {
    for n in [0usize, 1, 127, 128, 300, 16383, 16384, 1 << 20, usize::MAX] {
        let mut out = vec![9u8];
        write_varint(&mut out, n);
        out.push(0x55);
        assert_eq!(read_varint(&out, 1), Ok((n, out.len() - 1)));
    }
}

#[test]
fn backward_offsets_add_one_before_each_further_byte() {
    assert_eq!(get_offset(&[0x05, 0xff]), Ok((5, 1)));
    assert_eq!(get_offset(&[0x81, 0x00]), Ok((256, 2)));
    assert_eq!(get_offset(&[0x80, 0x00]), Ok((128, 2)));
    assert_eq!(get_offset(&[0x80, 0x80, 0x00]), Ok((16512, 3)));
    assert_eq!(get_offset(&[0x80]), Err(GitrError::TruncatedPack));
    assert_eq!(get_offset(&[]), Err(GitrError::TruncatedPack));
}

#[test]
fn copy_instruction_takes_the_bytes_that_its_bits_name() {
    assert_eq!(parse_copy_instruction(&[0x80]), Ok((0, 0x10000, 0)));
    assert_eq!(parse_copy_instruction(&[0x89, 6, 5]), Ok((6, 5, 2)));
    assert_eq!(parse_copy_instruction(&[0x88, 5]), Ok((0, 5, 1)));
    assert_eq!(parse_copy_instruction(&[0x92, 0x01, 0x02]), Ok((0x100, 0x200, 2)));
    assert_eq!(
        parse_copy_instruction(&[0xbf, 1, 2, 3, 4, 5, 6, 99]),
        Ok((0x030201, 0x060504, 6))
    );
    assert_eq!(parse_copy_instruction(&[0xc1, 7]), Ok((7, 0x10000, 1)));
    assert_eq!(parse_copy_instruction(&[0x89, 6]), Err(GitrError::TruncatedPack));
    assert_eq!(parse_copy_instruction(&[]), Err(GitrError::TruncatedPack));
}

#[test]
fn delta_copies_and_inserts() {
    let base = b"hello world";
    assert_eq!(transform_delta(&[11, 5, 0x89, 6, 5], base), Ok(b"world".to_vec()));
    assert_eq!(transform_delta(&[11, 3, 3, b'a', b'b', b'c'], base), Ok(b"abc".to_vec()));
    let delta = [11, 14, 0x88, 6, 4, b'm', b'y', b' ', b' ', 0x89, 6, 4];
    assert_eq!(transform_delta(&delta, base), Ok(b"hello my  worl".to_vec()));
    assert_eq!(transform_delta(&[11, 0], base), Ok(Vec::new()));
}

#[test]
fn delta_result_has_the_declared_size_or_fails() {
    let base = b"hello world";
    assert_eq!(transform_delta(&[11, 4, 0x89, 6, 5], base), Err(GitrError::MalformedObject));
    assert_eq!(transform_delta(&[11, 6, 0x89, 6, 5], base), Err(GitrError::MalformedObject));
    let out = transform_delta(&[11, 5, 0x89, 6, 5], base).unwrap();
    assert_eq!(out.len(), 5);
}

#[test]
fn delta_fails_as_it_should() {
    let base = b"hello world";
    assert_eq!(transform_delta(&[], base), Err(GitrError::TruncatedPack));
    assert_eq!(transform_delta(&[11], base), Err(GitrError::TruncatedPack));
    assert_eq!(transform_delta(&[11, 5, 0x89, 6], base), Err(GitrError::TruncatedPack));
    assert_eq!(transform_delta(&[11, 3, 3, b'a'], base), Err(GitrError::TruncatedPack));
    assert_eq!(transform_delta(&[11, 5, 0x89, 7, 5], base), Err(GitrError::MalformedObject));
    assert_eq!(transform_delta(&[11, 5, 0x80], base), Err(GitrError::MalformedObject));
}

#[test]
fn record_headers_read_type_and_size() {
    assert_eq!(get_encoded_length(&[0x35]), Ok((5, 1)));
    assert_eq!(parse_git_object(&[0x35, 0xff]), Ok((3, 5, 1)));
    assert_eq!(parse_git_object(&[0x95, 0x0a]), Ok((1, 165, 2)));
    assert_eq!(parse_git_object(&[0xf0, 0x80, 0x01]), Ok((7, 2048, 3)));
    assert_eq!(parse_git_object(&[]), Err(GitrError::TruncatedPack));
    assert_eq!(parse_git_object(&[0x95]), Err(GitrError::TruncatedPack));
}

#[test]
fn header_fields_are_checked() {
    assert_eq!(verify_header(b"PACK"), Ok(()));
    assert_eq!(verify_header(b"PACX"), Err(GitrError::BadMagic));
    assert_eq!(verify_header(b"PAC"), Err(GitrError::BadMagic));
    assert_eq!(extract_version(&[0, 0, 0, 2]), Ok(2));
    assert_eq!(extract_version(&[1, 2, 3, 4]), Ok(0x01020304));
    assert_eq!(extract_version(&[0, 0, 2]), Err(GitrError::TruncatedPack));
}

#[test]
fn streams_tell_where_they_end() {
    let stream = code(b"uno dos tres").unwrap();
    let mut followed = stream.clone();
    followed.extend_from_slice(b"lo que sigue");
    assert_eq!(decode(&followed), Ok((b"uno dos tres".to_vec(), stream.len())));
    assert_eq!(decode(&stream), Ok((b"uno dos tres".to_vec(), stream.len())));
    assert_eq!(decode(&stream[..stream.len() - 1]), Err(GitrError::CompressionError));
    assert_eq!(stream, flate2compress2(b"uno dos tres").unwrap());
}

#[test]
fn pack_starts_with_magic_version_and_count_and_ends_with_digest() {
    let pack = pack_objects(&sample_objects()).unwrap();
    assert_eq!(&pack[0..4], b"PACK");
    assert_eq!(&pack[4..8], &[0, 0, 0, 2]);
    assert_eq!(&pack[8..12], &[0, 0, 0, 4]);
    let body = &pack[..pack.len() - 20];
    assert_eq!(&pack[pack.len() - 20..], &sha1hashing2(body)[..]);
}

#[test]
fn unpacking_what_was_packed_gives_the_objects_back_in_order() {
    let objects = sample_objects();
    let pack = pack_objects(&objects).unwrap();
    let unpacked = read_pack_file(&pack).unwrap();
    assert_eq!(unpacked.len(), objects.len());
    for (got, sent) in unpacked.iter().zip(objects.iter()) {
        assert_eq!(got.get_hash(), sent.get_hash());
        assert_eq!(got.get_canonical(), sent.get_canonical());
        assert_eq!(got.get_type(), sent.get_type());
    }
    let again = PackFile::new_from_server_packfile(&pack).unwrap();
    assert_eq!(again.version, 2);
    assert_eq!(again.objects.len(), 4);
}

#[test]
fn packing_the_same_objects_gives_the_same_bytes() {
    assert_eq!(pack_objects(&sample_objects()).unwrap(), pack_objects(&sample_objects()).unwrap());
}

#[test]
fn an_empty_pack_unpacks_to_nothing() {
    let pack = pack_objects(&Vec::new()).unwrap();
    assert_eq!(pack.len(), 32);
    assert!(read_pack_file(&pack).unwrap().is_empty());
}

#[test]
fn a_count_beyond_the_records_is_a_truncated_pack() {
    let mut pack = pack_objects(&sample_objects()).unwrap();
    pack[11] = 5;
    assert_eq!(read_pack_file(&pack).err(), Some(GitrError::TruncatedPack));
    pack[11] = 200;
    assert_eq!(read_pack_file(&pack).err(), Some(GitrError::TruncatedPack));
    let mut none = pack_objects(&Vec::new()).unwrap();
    none[11] = 1;
    assert_eq!(read_pack_file(&none).err(), Some(GitrError::TruncatedPack));
}

#[test]
fn a_count_below_the_records_is_refused() {
    let mut pack = pack_objects(&sample_objects()).unwrap();
    pack[11] = 3;
    assert_eq!(read_pack_file(&pack).err(), Some(GitrError::MalformedObject));
}

#[test]
fn framing_violations_are_told_apart() {
    let pack = pack_objects(&sample_objects()).unwrap();
    assert_eq!(read_pack_file(&pack[..31]).err(), Some(GitrError::TruncatedPack));
    assert_eq!(read_pack_file(b"").err(), Some(GitrError::TruncatedPack));
    let mut bad_magic = pack.clone();
    bad_magic[0] = b'p';
    assert_eq!(read_pack_file(&bad_magic).err(), Some(GitrError::BadMagic));
    let mut bad_version = pack.clone();
    bad_version[7] = 3;
    assert_eq!(read_pack_file(&bad_version).err(), Some(GitrError::UnsupportedVersion));
    let mut bad_type = pack.clone();
    bad_type[12] = (bad_type[12] & 0x8f) | 0x50;
    assert_eq!(read_pack_file(&bad_type).err(), Some(GitrError::MalformedObject));
}

fn pack_of(records: &[Vec<u8>]) -> Vec<u8> {
    let mut pack = b"PACK".to_vec();
    pack.extend_from_slice(&[0, 0, 0, 2]);
    pack.extend_from_slice(&(records.len() as u32).to_be_bytes());
    for record in records {
        pack.extend_from_slice(record);
    }
    let digest = sha1hashing2(&pack);
    pack.extend_from_slice(&digest);
    pack
}

fn plain_record(tag: u8, payload: &[u8]) -> Vec<u8> {
    assert!(payload.len() < 16);
    let mut record = vec![(tag << 4) | payload.len() as u8];
    record.extend_from_slice(&flate2compress2(payload).unwrap());
    record
}

#[test]
fn hash_delta_is_applied_to_the_object_seen_before() {
    let base = Blob::new(b"hello world".to_vec()).unwrap();
    let delta = [11u8, 5, 0x89, 6, 5];
    let mut record = vec![(7u8 << 4) | delta.len() as u8];
    record.extend_from_slice(&get_formated_hash(&base.get_hash()).unwrap());
    record.extend_from_slice(&flate2compress2(&delta).unwrap());
    let pack = pack_of(&[plain_record(3, b"hello world"), record.clone()]);
    let objects = read_pack_file(&pack).unwrap();
    assert_eq!(objects.len(), 2);
    assert_eq!(objects[0].get_hash(), base.get_hash());
    assert_eq!(objects[1].get_content(), b"world".to_vec());
    assert_eq!(objects[1].get_type(), 3);
    let alone = pack_of(&[record]);
    assert_eq!(read_pack_file(&alone).err(), Some(GitrError::MissingDeltaBase));
}

#[test]
fn offset_delta_is_applied_to_the_record_so_far_back() {
    let first = plain_record(3, b"hello world");
    let delta = [11u8, 8, 0x88, 5, 3, b'!', b'!', b'!'];
    let mut record = vec![(6u8 << 4) | delta.len() as u8];
    record.push(first.len() as u8);
    record.extend_from_slice(&flate2compress2(&delta).unwrap());
    let pack = pack_of(&[first.clone(), record]);
    let objects = read_pack_file(&pack).unwrap();
    assert_eq!(objects[1].get_content(), b"hello!!!".to_vec());
    let mut wrong = vec![(6u8 << 4) | delta.len() as u8];
    wrong.push(first.len() as u8 - 1);
    wrong.extend_from_slice(&flate2compress2(&delta).unwrap());
    assert_eq!(
        read_pack_file(&pack_of(&[first.clone(), wrong])).err(),
        Some(GitrError::MissingDeltaBase)
    );
    let mut beyond = vec![(6u8 << 4) | delta.len() as u8];
    beyond.push(100);
    beyond.extend_from_slice(&flate2compress2(&delta).unwrap());
    assert_eq!(
        read_pack_file(&pack_of(&[first, beyond])).err(),
        Some(GitrError::MissingDeltaBase)
    );
}

#[test]
fn records_whose_payload_is_no_object_are_refused() {
    let pack = pack_of(&[plain_record(2, b"no es arbol")]);
    assert_eq!(read_pack_file(&pack).err(), Some(GitrError::MalformedObject));
    let mut lying = plain_record(3, b"hola");
    lying[0] = (3 << 4) | 5;
    assert_eq!(read_pack_file(&pack_of(&[lying])).err(), Some(GitrError::MalformedObject));
    let mut cut = vec![(3u8 << 4) | 4];
    cut.extend_from_slice(&[0x78, 0x9c, 0x01]);
    assert_eq!(read_pack_file(&pack_of(&[cut])).err(), Some(GitrError::TruncatedPack));
    let mut corrupt = vec![(3u8 << 4) | 4];
    corrupt.extend_from_slice(&[0xff, 0xff, 0xff, 0xff, 0xff, 0xff, 0xff, 0xff]);
    assert_eq!(read_pack_file(&pack_of(&[corrupt])).err(), Some(GitrError::CompressionError));
}

#[test]
fn records_are_read_one_at_a_time() {
    let pack = pack_objects(&sample_objects()).unwrap();
    let body = &pack[..pack.len() - 20];
    let mut seen = Vec::new();
    let (first, next) = read_object(body, 12, &mut seen).unwrap();
    assert_eq!(first.get_type(), 1);
    assert_eq!(seen.len(), 1);
    assert_eq!(seen[0].offset, 12);
    assert_eq!(seen[0].id, first.get_hash());
    let (second, _) = read_object(body, next, &mut seen).unwrap();
    assert_eq!(second.get_type(), 2);
    assert_eq!(read_object(body, body.len(), &mut seen).err(), Some(GitrError::TruncatedPack));
    assert_eq!(seen.len(), 2);
}

#[test]
fn objects_are_made_from_tag_and_payload() {
    assert_eq!(git_valid_object_from_packfile(3, b"hola").unwrap().get_content(), b"hola".to_vec());
    assert_eq!(git_valid_object_from_packfile(0, b"hola").err(), Some(GitrError::MalformedObject));
    assert_eq!(git_valid_object_from_packfile(6, b"hola").err(), Some(GitrError::MalformedObject));
    assert_eq!(git_valid_object_from_packfile(1, b"hola").err(), Some(GitrError::MalformedObject));
}

#[test]
fn contents_are_prepared_from_canonical_forms() {
    let prepared = prepare_contents(vec![
        b"blob 4\0hola".to_vec(),
        b"sin espacio\0x".to_vec(),
        b"tree 0\0".to_vec(),
        b"nada".to_vec(),
    ]);
    assert_eq!(prepared[0], (b"blob".to_vec(), b"4".to_vec(), b"hola".to_vec()));
    assert_eq!(prepared[1], (b"sin".to_vec(), b"espacio".to_vec(), b"x".to_vec()));
    assert_eq!(prepared[2], (b"tree".to_vec(), b"0".to_vec(), Vec::new()));
    assert_eq!(prepared[3], (Vec::new(), Vec::new(), Vec::new()));
}

#[test]
fn triples_that_cannot_be_packed_are_refused() {
    let unknown = vec![(b"cosa".to_vec(), b"4".to_vec(), b"hola".to_vec())];
    assert_eq!(create_packfile(unknown).err(), Some(GitrError::MalformedObject));
    let not_a_number = vec![(b"blob".to_vec(), b"x".to_vec(), b"hola".to_vec())];
    assert_eq!(create_packfile(not_a_number).err(), Some(GitrError::MalformedObject));
    let no_digits = vec![(b"blob".to_vec(), b"+".to_vec(), b"hola".to_vec())];
    assert_eq!(create_packfile(no_digits).err(), Some(GitrError::MalformedObject));
    let empty = vec![(b"blob".to_vec(), Vec::new(), b"hola".to_vec())];
    assert_eq!(create_packfile(empty).err(), Some(GitrError::MalformedObject));
}

#[test]
fn the_header_of_a_record_declares_the_length_given() {
    let blob = create_packfile(vec![(b"blob".to_vec(), b"165".to_vec(), vec![b'x'; 165])]).unwrap();
    assert_eq!(blob[..12], [0x50, 0x41, 0x43, 0x4b, 0, 0, 0, 2, 0, 0, 0, 1]);
    assert_eq!(blob[12], 0xb5);
    assert_eq!(blob[13], 0x0a);
    let n = blob.len();
    assert_eq!(blob[n - 20..].to_vec(), sha1hashing2(&blob[..n - 20]));

    let other = create_packfile(vec![(b"blob".to_vec(), b"5".to_vec(), b"hola".to_vec())]).unwrap();
    assert_eq!(other[12], 0x35);
    let signed = create_packfile(vec![(b"tag".to_vec(), b"+04".to_vec(), b"hola".to_vec())]).unwrap();
    assert_eq!(signed[12], 0x44);
    assert_eq!(parse_length(b"165"), Some(165));
    assert_eq!(parse_length(b"+7"), Some(7));
    assert_eq!(parse_length(b"-7"), None);
    assert_eq!(parse_length(b"99999999999999999999999999"), None);
}

#[test]
fn packing_canonical_forms_is_packing_the_objects() {
    let objects = sample_objects();
    let forms: Vec<Vec<u8>> = objects.iter().map(|o| o.get_canonical()).collect();
    assert_eq!(pack_data_bruno(forms).unwrap(), pack_objects(&objects).unwrap());
    let small = create_packfile(vec![(b"blob".to_vec(), b"4".to_vec(), b"hola".to_vec())]).unwrap();
    assert_eq!(small[12], 0x34);
    assert_eq!(read_pack_file(&small).unwrap()[0].get_content(), b"hola".to_vec());
}

#[test]
fn sizes_of_sixteen_and_more_go_on_in_further_bytes() {
    let payload = vec![b'a'; 165];
    let digits = b"165".to_vec();
    let pack = create_packfile(vec![(b"blob".to_vec(), digits, payload.clone())]).unwrap();
    assert_eq!(pack[12], 0x80 | (3 << 4) | 5);
    assert_eq!(pack[13], 10);
    assert_eq!(read_pack_file(&pack).unwrap()[0].get_content(), payload);
}

#[test]
fn a_pack_that_ends_before_its_records_do_is_truncated() {
    let objects = sample_objects();
    let pack = pack_objects(&objects).unwrap();
    let without_trailer = &pack[..pack.len() - 20];
    assert_eq!(read_pack_file(without_trailer).err(), Some(GitrError::TruncatedPack));
    let mut cut = pack[..pack.len() - 25].to_vec();
    cut.extend_from_slice(&sha1hashing2(&pack[..pack.len() - 25]));
    assert_eq!(read_pack_file(&cut).err(), Some(GitrError::TruncatedPack));
    assert_eq!(read_pack_file(&pack[..14]).err(), Some(GitrError::TruncatedPack));
    let mut more = pack[..pack.len() - 20].to_vec();
    more[11] += 1;
    more.extend_from_slice(&sha1hashing2(&more.clone()));
    assert_eq!(read_pack_file(&more).err(), Some(GitrError::TruncatedPack));
    assert_eq!(read_pack_file(&pack).unwrap().len(), objects.len());
}
