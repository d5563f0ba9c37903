use gitr::ancestry::{closure, is_parent, walk, Follow, Node, Role};
use gitr::file_manager::ObjectStore;
use gitr::gitr_errors::GitrError;
use gitr::objects::blob::{Blob, TreeEntry};
use gitr::objects::commit::Commit;
use gitr::objects::git_object::GitObject;
use gitr::objects::tag::Tag;
use gitr::objects::tree::Tree;

const WHO: &[u8] = b"cliente <test@mail> 1702329287 -0300";

struct History {
    store: ObjectStore,
    c: Vec<u8>,
    padre: Vec<u8>,
    abuelo: Vec<u8>,
    trees: Vec<Vec<u8>>,
    blobs: Vec<Vec<u8>>,
}

fn snapshot(store: &mut ObjectStore, file: &[u8], inner: &[u8]) -> (Vec<u8>, Vec<Vec<u8>>, Vec<Vec<u8>>) {
    let blob = Blob::new(file.to_vec()).unwrap();
    let inner_blob = Blob::new(inner.to_vec()).unwrap();
    let blobs = vec![blob.get_hash(), inner_blob.get_hash()];
    blob.save(store).unwrap();
    inner_blob.save(store).unwrap();
    let sub = Tree::new(vec![(b"dentro.txt".to_vec(), TreeEntry::Blob(inner_blob))]).unwrap();
    sub.save(store).unwrap();
    let sub_id = sub.get_hash();
    let root = Tree::new(vec![
        (b"archivo.txt".to_vec(), TreeEntry::Blob(blob)),
        (b"carpeta".to_vec(), TreeEntry::Tree(sub)),
    ])
    .unwrap();
    root.save(store).unwrap();
    (root.get_hash(), vec![root.get_hash(), sub_id], blobs)
}

fn commit(store: &mut ObjectStore, tree: &[u8], parents: Vec<Vec<u8>>, message: &[u8]) -> Vec<u8> {
    let commit = Commit::new_from_packfile(
        tree.to_vec(),
        parents,
        WHO.to_vec(),
        WHO.to_vec(),
        message.to_vec(),
    )
    .unwrap();
    commit.save(store).unwrap();
    commit.get_hash()
}

fn history() -> History {
    let mut store = ObjectStore::new();
    let (t2, trees2, blobs2) = snapshot(&mut store, b"version 2 atras", b"dentro 2");
    let abuelo = commit(&mut store, &t2, vec![b"None".to_vec()], b"abuelo\n");
    let (t1, trees1, blobs1) = snapshot(&mut store, b"version 1 atras", b"dentro 1");
    let padre = commit(&mut store, &t1, vec![abuelo.clone()], b"padre\n");
    let (t0, trees0, blobs0) = snapshot(&mut store, b"version de ahora", b"dentro 0");
    let c = commit(&mut store, &t0, vec![padre.clone()], b"hijo\n");
    let mut trees = trees0;
    trees.extend(trees1);
    trees.extend(trees2);
    let mut blobs = blobs0;
    blobs.extend(blobs1);
    blobs.extend(blobs2);
    History { store, c, padre, abuelo, trees, blobs }
}

fn sorted(mut ids: Vec<Vec<u8>>) -> Vec<Vec<u8>> {
    ids.sort();
    ids
}

#[test]
fn closure_of_a_chain_holds_every_commit_tree_and_blob() {
    let h = history();
    let found = closure(&vec![h.c.clone()], &Vec::new(), &h.store).unwrap();
    let mut expected = vec![h.c.clone(), h.padre.clone(), h.abuelo.clone()];
    expected.extend(h.trees.clone());
    expected.extend(h.blobs.clone());
    assert_eq!(found.len(), 15);
    assert_eq!(sorted(found), sorted(expected));
}

#[test]
fn closure_stops_before_the_boundary() {
    let h = history();
    let found = closure(&vec![h.c.clone()], &vec![h.padre.clone()], &h.store).unwrap();
    let mut expected = vec![h.c.clone()];
    expected.extend(h.trees[0..2].to_vec());
    expected.extend(h.blobs[0..2].to_vec());
    assert_eq!(sorted(found.clone()), sorted(expected));
    assert!(!found.contains(&h.padre));
    assert!(!found.contains(&h.abuelo));
    assert!(!found.contains(&h.trees[2]));
    assert!(!found.contains(&h.blobs[4]));
}

#[test]
fn closure_of_what_the_other_side_has_is_empty() {
    let h = history();
    let found = closure(&vec![h.c.clone()], &vec![h.c.clone()], &h.store).unwrap();
    assert!(found.is_empty());
    assert!(closure(&Vec::new(), &Vec::new(), &h.store).unwrap().is_empty());
    assert!(closure(&vec![b"None".to_vec()], &Vec::new(), &h.store).unwrap().is_empty());
}

#[test]
fn closure_names_each_object_once() {
    let h = history();
    let starts = vec![h.c.clone(), h.padre.clone(), h.c.clone()];
    let found = closure(&starts, &Vec::new(), &h.store).unwrap();
    assert_eq!(found.len(), 15);
    let mut unique = sorted(found);
    unique.dedup();
    assert_eq!(unique.len(), 15);
}

#[test]
fn a_tag_is_followed_to_its_commit() {
    let mut h = history();
    let tag = Tag::new_from_packfile(
        b"v1".to_vec(),
        b"etiqueta\n".to_vec(),
        h.abuelo.clone(),
        WHO.to_vec(),
    )
    .unwrap();
    tag.save(&mut h.store).unwrap();
    let found = closure(&vec![tag.get_hash()], &Vec::new(), &h.store).unwrap();
    assert_eq!(found[0], tag.get_hash());
    assert_eq!(found[1], h.abuelo);
    assert_eq!(found.len(), 6);
}

#[test]
fn what_is_neither_commit_nor_tag_breaks_the_walk() {
    let h = history();
    assert_eq!(
        closure(&vec![h.blobs[0].clone()], &Vec::new(), &h.store).err(),
        Some(GitrError::InvalidCommitGraph)
    );
    assert_eq!(
        closure(&vec![h.trees[0].clone()], &Vec::new(), &h.store).err(),
        Some(GitrError::InvalidCommitGraph)
    );
    let missing = b"74730d410fcb6603ace96f1dc55ea6196122532d".to_vec();
    assert_eq!(
        closure(&vec![missing], &Vec::new(), &h.store).err(),
        Some(GitrError::ObjectNotFound)
    );
}

#[test]
fn a_missing_parent_breaks_the_walk() {
    let mut store = ObjectStore::new();
    let (tree, _, _) = snapshot(&mut store, b"a", b"b");
    let missing = b"74730d410fcb6603ace96f1dc55ea6196122532d".to_vec();
    let orphan = commit(&mut store, &tree, vec![missing.clone()], b"huerfano\n");
    assert_eq!(
        closure(&vec![orphan.clone()], &Vec::new(), &store).err(),
        Some(GitrError::ObjectNotFound)
    );
    assert_eq!(closure(&vec![orphan], &vec![missing], &store).unwrap().len(), 5);
}

#[test]
fn parents_are_the_commits_over_history() {
    let h = history();
    let all = Commit::get_parents(vec![h.c.clone()], Vec::new(), &h.store).unwrap();
    assert_eq!(all, vec![h.c.clone(), h.padre.clone(), h.abuelo.clone()]);
    let bounded = Commit::get_parents(vec![h.c.clone()], vec![h.abuelo.clone()], &h.store).unwrap();
    assert_eq!(bounded, vec![h.c.clone(), h.padre.clone()]);
}

#[test]
fn objects_of_commits_leave_out_what_the_client_has() {
    let h = history();
    let all = Commit::get_objects_from_commits(vec![h.abuelo.clone()], Vec::new(), &h.store).unwrap();
    let mut expected = vec![h.abuelo.clone()];
    expected.extend(h.trees[4..6].to_vec());
    expected.extend(h.blobs[4..6].to_vec());
    assert_eq!(sorted(all), sorted(expected.clone()));
    let has = vec![h.blobs[4].clone(), h.abuelo.clone()];
    let some = Commit::get_objects_from_commits(vec![h.abuelo.clone()], has.clone(), &h.store).unwrap();
    expected.retain(|id| !has.contains(id));
    assert_eq!(sorted(some), sorted(expected));
}

#[test]
fn tree_objects_are_all_that_a_tree_holds() {
    let h = history();
    let mut ids = vec![h.blobs[0].clone()];
    Tree::get_all_tree_objects(h.trees[0].clone(), &h.store, &mut ids).unwrap();
    assert_eq!(sorted(ids), sorted(vec![h.blobs[0].clone(), h.blobs[1].clone(), h.trees[1].clone()]));
    let mut none = Vec::new();
    assert_eq!(
        Tree::get_all_tree_objects(h.c.clone(), &h.store, &mut none).err(),
        Some(GitrError::MalformedObject)
    );
    assert!(none.is_empty());
}

#[test]
fn ancestry_is_told_over_history() {
    let h = history();
    assert!(is_parent(h.c.clone(), h.abuelo.clone(), &h.store));
    assert!(is_parent(h.c.clone(), h.c.clone(), &h.store));
    assert!(!is_parent(h.abuelo.clone(), h.c.clone(), &h.store));
    assert!(!is_parent(h.c.clone(), h.trees[0].clone(), &h.store));
    assert!(!is_parent(h.blobs[0].clone(), h.c.clone(), &h.store));
}

#[test]
fn a_walk_tells_how_it_came_to_each_object() {
    let h = history();
    let starts = vec![Node { id: h.abuelo.clone(), role: Role::History }];
    let found =
        walk(&starts, &Vec::new(), &h.store, Follow { history: true, content: true }).unwrap();
    assert_eq!(found[0].role, Role::History);
    assert_eq!(found[1].role, Role::Tree);
    assert_eq!(found.iter().filter(|n| n.role == Role::Blob).count(), 2);
    assert_eq!(found.iter().filter(|n| n.role == Role::Tree).count(), 2);
}

#[test]
fn a_merge_is_walked_along_both_parents() {
    let mut store = ObjectStore::new();
    let (tree, _, _) = snapshot(&mut store, b"a", b"b");
    let root = commit(&mut store, &tree, Vec::new(), b"raiz\n");
    let left = commit(&mut store, &tree, vec![root.clone()], b"izquierda\n");
    let right = commit(&mut store, &tree, vec![root.clone()], b"derecha\n");
    let merge = commit(&mut store, &tree, vec![left.clone(), right.clone()], b"union\n");
    let found = Commit::get_parents(vec![merge.clone()], Vec::new(), &store).unwrap();
    assert_eq!(found, vec![merge, left, right, root]);
    let object = store.get(&found[0]).unwrap();
    assert!(matches!(object, GitObject::Commit(_)));
}
