use gitr::commands::command_utils::write_new_commit_and_branch;
use gitr::commands::merge::{
    add_new_files_from_merge, merge_file, merge_jobs, merge_plan, read_file_data_from_blob_hash,
    three_way_merge, MergeJob, MergePlan, MergedFile,
};
use gitr::commands::snapshot::{get_commit_hashmap, get_current_commit_hashmap, get_subtrees_data};
use gitr::commands::staging::{
    add_to_index, get_index_hashmap, join_lines, new_index_line, parse_index_line, rm_from_index,
};
use gitr::commands::status::{
    file_id, get_status, get_status_files_not_staged, get_status_files_to_be_comited,
    get_status_files_untracked, get_tobe_commited_files, get_untracked_notstaged_files,
    status_print_current_branch,
};
use gitr::file_manager::{init_repository, update_head, Repository};
use gitr::gitr_errors::GitrError;
use gitr::objects::blob::{Blob, TreeEntry};
use gitr::objects::tree::Tree;

const A: &[u8] = b"74730d410fcb6603ace96f1dc55ea6196122532d";
const B: &[u8] = b"7d1665144a3a975c05f1f43902ddaf084e784dbe";
const C: &[u8] = b"3b18e512dba79e4c8300dd08aeb37f8e728b8dad";

fn files(list: &[(&[u8], &[u8])]) -> Vec<(Vec<u8>, Vec<u8>)> {
    list.iter().map(|(p, h)| (p.to_vec(), h.to_vec())).collect()
}

fn names(list: &[&[u8]]) -> Vec<Vec<u8>> {
    list.iter().map(|w| w.to_vec()).collect()
}

fn blob(repo: &mut Repository, content: &[u8]) -> Blob {
    let blob = Blob::new(content.to_vec()).unwrap();
    blob.save(&mut repo.objects).unwrap();
    blob
}

fn commit(repo: &mut Repository, tree: Vec<u8>, message: &[u8], time: usize) -> Vec<u8> {
    write_new_commit_and_branch(tree, message, b"None".to_vec(), b"ana", b"a@m", time, repo)
        .unwrap()
}

/// A tree with `a.txt`, and `dir` with `b.txt` in it.
fn nested(repo: &mut Repository, a: &[u8], b: &[u8]) -> (Vec<u8>, Vec<u8>, Vec<u8>) {
    let blob_a = blob(repo, a);
    let blob_b = blob(repo, b);
    let ids = (blob_a.get_hash(), blob_b.get_hash());
    let inner = Tree::new(vec![(b"b.txt".to_vec(), TreeEntry::Blob(blob_b))]).unwrap();
    inner.save(&mut repo.objects).unwrap();
    let tree = Tree::new(vec![
        (b"a.txt".to_vec(), TreeEntry::Blob(blob_a)),
        (b"dir".to_vec(), TreeEntry::Tree(inner)),
    ])
    .unwrap();
    tree.save(&mut repo.objects).unwrap();
    (tree.get_hash(), ids.0, ids.1)
}

#[test]
fn the_index_holds_one_line_for_each_file() {
    let mut repo = init_repository(b"repo").unwrap();
    assert_eq!(get_index_hashmap(&repo), Ok((Vec::new(), false)));
    assert_eq!(add_to_index(b"repo/a.txt", A, &mut repo), Ok(()));
    assert_eq!(
        repo.index,
        b"100644 74730d410fcb6603ace96f1dc55ea6196122532d 0 repo/a.txt".to_vec()
    );
    add_to_index(b"repo/dir/b.txt", B, &mut repo).unwrap();
    assert_eq!(
        repo.index,
        b"100644 74730d410fcb6603ace96f1dc55ea6196122532d 0 repo/a.txt\n100644 7d1665144a3a975c05f1f43902ddaf084e784dbe 0 repo/dir/b.txt".to_vec()
    );
    assert_eq!(
        get_index_hashmap(&repo),
        Ok((files(&[(b"repo/a.txt", A), (b"repo/dir/b.txt", B)]), true))
    );
}

#[test]
fn staging_a_file_again_replaces_its_line() {
    let mut repo = init_repository(b"repo").unwrap();
    add_to_index(b"repo/a.txt", A, &mut repo).unwrap();
    add_to_index(b"repo/b.txt", B, &mut repo).unwrap();
    add_to_index(b"repo/a.txt", C, &mut repo).unwrap();
    assert_eq!(
        get_index_hashmap(&repo),
        Ok((files(&[(b"repo/a.txt", C), (b"repo/b.txt", B)]), true))
    );
}

#[test]
fn a_file_is_taken_out_of_the_index() {
    let mut repo = init_repository(b"repo").unwrap();
    add_to_index(b"repo/a.txt", A, &mut repo).unwrap();
    add_to_index(b"repo/b.txt", B, &mut repo).unwrap();
    add_to_index(b"repo/c.txt", C, &mut repo).unwrap();
    assert_eq!(rm_from_index(b"b.txt", &mut repo), Ok(true));
    assert_eq!(
        get_index_hashmap(&repo),
        Ok((files(&[(b"repo/a.txt", A), (b"repo/c.txt", C)]), true))
    );
    assert_eq!(rm_from_index(b"b.txt", &mut repo), Ok(false));
    assert_eq!(rm_from_index(b"a.txt", &mut repo), Ok(true));
    assert_eq!(rm_from_index(b"c.txt", &mut repo), Ok(true));
    assert!(repo.index.is_empty());
    assert_eq!(get_index_hashmap(&repo), Ok((Vec::new(), false)));
}

#[test]
fn a_line_of_the_index_is_written_and_read() {
    assert_eq!(
        new_index_line(b"repo/a.txt", A),
        b"100644 74730d410fcb6603ace96f1dc55ea6196122532d 0 repo/a.txt".to_vec()
    );
    assert_eq!(
        parse_index_line(b"100644 74730d410fcb6603ace96f1dc55ea6196122532d 0 repo/a.txt"),
        Some((b"repo/a.txt".to_vec(), A.to_vec()))
    );
    assert_eq!(parse_index_line(b"100644 abc 0"), None);
    assert_eq!(join_lines(&names(&[b"uno", b"dos", b"tres"])), b"uno\ndos\ntres".to_vec());
    assert_eq!(join_lines(&Vec::new()), Vec::<u8>::new());
    let mut repo = init_repository(b"repo").unwrap();
    repo.index = b"una linea rota".to_vec();
    assert_eq!(get_index_hashmap(&repo), Err(GitrError::FileReadError));
}

#[test]
fn the_files_of_a_commit_are_those_of_its_trees() {
    let mut repo = init_repository(b"repo").unwrap();
    let (tree, a, b) = nested(&mut repo, b"uno\n", b"dos\n");
    let id = commit(&mut repo, tree.clone(), b"primero", 1);
    assert_eq!(
        get_commit_hashmap(&id, &repo),
        Ok(files(&[(b"repo/a.txt", &a), (b"repo/dir/b.txt", &b)]))
    );
    assert_eq!(get_commit_hashmap(b"", &repo), Ok(Vec::new()));
    assert_eq!(get_commit_hashmap(A, &repo), Err(GitrError::ObjectNotFound));
    assert_eq!(get_commit_hashmap(&a, &repo), Err(GitrError::MalformedObject));

    let mut map = files(&[(b"x", A)]);
    assert_eq!(get_subtrees_data(&tree, b"base", &mut map, &repo.objects), Ok(()));
    assert_eq!(map, files(&[(b"x", A), (b"base/a.txt", &a), (b"base/dir/b.txt", &b)]));
    assert_eq!(
        get_subtrees_data(&a, b"base", &mut map, &repo.objects),
        Err(GitrError::MalformedObject)
    );
    assert_eq!(map.len(), 3);
}

#[test]
fn the_current_commit_shows_what_its_tree_holds_directly() {
    let mut repo = init_repository(b"repo").unwrap();
    assert_eq!(get_current_commit_hashmap(&repo), Ok(Vec::new()));
    let (tree, a, _) = nested(&mut repo, b"uno\n", b"dos\n");
    commit(&mut repo, tree, b"primero", 1);
    let found = get_current_commit_hashmap(&repo).unwrap();
    assert_eq!(found.len(), 2);
    assert_eq!(found[0], (b"repo/a.txt".to_vec(), a));
    assert_eq!(found[1].0, b"repo/dir".to_vec());
}

#[test]
fn files_are_told_apart_by_index_and_commit() {
    let work = files(&[
        (b"repo/same.txt", A),
        (b"repo/changed.txt", B),
        (b"repo/new.txt", C),
        (b"repo/committed.txt", B),
    ]);
    let index = files(&[
        (b"repo/same.txt", A),
        (b"repo/changed.txt", A),
        (b"repo/gone.txt", C),
    ]);
    let commit = files(&[(b"repo/same.txt", A), (b"repo/committed.txt", A)]);
    assert_eq!(file_id(&work, b"repo/new.txt"), Some(C.to_vec()));
    assert_eq!(file_id(&work, b"repo/none.txt"), None);
    let (not_staged, untracked) = get_untracked_notstaged_files(&work, &index, &commit);
    assert_eq!(
        not_staged,
        names(&[b"repo/gone.txt", b"repo/changed.txt", b"repo/committed.txt"])
    );
    assert_eq!(untracked, names(&[b"repo/new.txt"]));
    let index = files(&[(b"repo/same.txt", A), (b"repo/mod.txt", B), (b"repo/added.txt", C), (b"repo/held.txt", B)]);
    let commit = files(&[(b"repo/same.txt", A), (b"repo/mod.txt", A), (b"repo/held.txt", A)]);
    let (new_files, modified) =
        get_tobe_commited_files(&names(&[b"repo/held.txt"]), &index, &commit);
    assert_eq!(new_files, names(&[b"repo/added.txt"]));
    assert_eq!(modified, names(&[b"repo/mod.txt"]));
}

#[test]
fn the_parts_of_the_status_are_written_out() {
    assert_eq!(
        get_status_files_to_be_comited(&names(&[b"repo/n.txt"]), &names(&[b"repo/dir/m.txt"])),
        Ok(b"Changes to be committed:\n  (use \"rm <file>...\" to unstage)\n\t\x1b[92mnew file:   n.txt\x1b[0m\n\t\x1b[92mmodified:   dir/m.txt\x1b[0m\n".to_vec())
    );
    assert_eq!(get_status_files_to_be_comited(&Vec::new(), &Vec::new()), Ok(Vec::new()));
    let index = files(&[(b"repo/gone.txt", A), (b"repo/mod.txt", A)]);
    let work = files(&[(b"repo/mod.txt", B)]);
    assert_eq!(
        get_status_files_not_staged(&names(&[b"repo/gone.txt", b"repo/mod.txt"]), &index, true, &work),
        Ok(b"Changes not staged for commit:\n  (use \"add <file>...\" to update what will be committed)\n  (use \"rm <file>...\" to discard changes in working directory)\n\t\x1b[31mdeleted:   gone.txt\x1b[0m\n\t\x1b[92mmodified   mod.txt\x1b[0m\n".to_vec())
    );
    assert_eq!(
        get_status_files_not_staged(&Vec::new(), &index, true, &work),
        Ok(Vec::new())
    );
    assert_eq!(
        get_status_files_untracked(&names(&[b"repo/u.txt", b"suelto"]), true),
        b"Untracked files:\n  (use \"add <file>...\" to include in what will be committed)\n\t\x1b[31mu.txt\x1b[0m\n\t\x1b[31msuelto\x1b[0m\n".to_vec()
    );
    assert_eq!(
        get_status_files_untracked(&names(&[b"repo/u.txt"]), false),
        b"Untracked files:\n  (use \"add <file>...\" to include in what will be committed)\n\t\x1b[31mu.txt\x1b[0m\nnothing added to commit but untracked files present (use \"add\" to track)\n".to_vec()
    );
    assert!(get_status_files_untracked(&Vec::new(), false).is_empty());
}

#[test]
fn the_status_of_a_new_repository() {
    let mut repo = init_repository(b"repo").unwrap();
    assert_eq!(
        status_print_current_branch(&repo),
        Ok(b"On branch master\n\nNo commits yet\n".to_vec())
    );
    assert_eq!(
        get_status(&Vec::new(), &repo),
        Ok(b"On branch master\n\nNo commits yet\n\nnothing to commit, working tree clean\n".to_vec())
    );
    assert_eq!(
        get_status(&files(&[(b"repo/a.txt", A)]), &repo),
        Ok(b"On branch master\n\nNo commits yet\n\nUntracked files:\n  (use \"add <file>...\" to include in what will be committed)\n\t\x1b[31ma.txt\x1b[0m\nnothing added to commit but untracked files present (use \"add\" to track)\n".to_vec())
    );
    update_head(b"None", &mut repo).unwrap();
    assert_eq!(status_print_current_branch(&repo), Err(GitrError::NoHead));
    assert_eq!(get_status(&Vec::new(), &repo), Err(GitrError::NoHead));
}

#[test]
fn the_status_after_a_commit_and_a_change() {
    let mut repo = init_repository(b"repo").unwrap();
    let one = blob(&mut repo, b"uno\n");
    let id = one.get_hash();
    let tree = Tree::new(vec![(b"a.txt".to_vec(), TreeEntry::Blob(one))]).unwrap();
    tree.save(&mut repo.objects).unwrap();
    commit(&mut repo, tree.get_hash(), b"primero", 1);
    add_to_index(b"repo/a.txt", &id, &mut repo).unwrap();
    assert_eq!(
        get_status(&files(&[(b"repo/a.txt", &id)]), &repo),
        Ok(b"On branch master\n\n\nnothing to commit, working tree clean\n".to_vec())
    );
    add_to_index(b"repo/b.txt", B, &mut repo).unwrap();
    assert_eq!(
        get_status(&files(&[(b"repo/a.txt", C), (b"repo/b.txt", B)]), &repo),
        Ok(b"On branch master\n\n\nChanges to be committed:\n  (use \"rm <file>...\" to unstage)\n\t\x1b[92mnew file:   b.txt\x1b[0m\nChanges not staged for commit:\n  (use \"add <file>...\" to update what will be committed)\n  (use \"rm <file>...\" to discard changes in working directory)\n\t\x1b[92mmodified   a.txt\x1b[0m\n".to_vec())
    );
}

#[test]
fn a_merge_is_planned_by_the_first_shared_commit() {
    let origin = names(&[b"o2", b"o1", b"base"]);
    let branch = names(&[b"b2", b"b1", b"base"]);
    match merge_plan(&branch, &origin) {
        MergePlan::ThreeWay(base) => assert_eq!(base, b"base".to_vec()),
        other => panic!("{:?}", other),
    }
    let ahead = names(&[b"b1", b"o2", b"o1", b"base"]);
    assert!(matches!(merge_plan(&ahead, &origin), MergePlan::FastForward));
    assert!(matches!(merge_plan(&names(&[b"x", b"y"]), &origin), MergePlan::Nothing));
    assert!(matches!(merge_plan(&Vec::new(), &origin), MergePlan::Nothing));
    assert!(matches!(merge_plan(&branch, &Vec::new()), MergePlan::Nothing));
}

fn job(base: Option<&[u8]>, origin: &[u8], branch: &[u8]) -> MergeJob {
    let id = |data: &[u8]| Blob::new(data.to_vec()).unwrap().get_hash();
    MergeJob {
        path: b"repo/a.txt".to_vec(),
        base_hash: base.map(id).unwrap_or_default(),
        base_data: base.map(|d| d.to_vec()).unwrap_or_default(),
        origin_hash: id(origin),
        origin_data: origin.to_vec(),
        branch_hash: id(branch),
        branch_data: branch.to_vec(),
    }
}

#[test]
fn a_file_that_one_side_changed_takes_that_change() {
    let base: &[u8] = b"uno\ndos\ntres\n";
    let changed: &[u8] = b"uno\nDOS\ntres\n";
    match merge_file(&job(Some(base), base, changed)).unwrap() {
        (MergedFile::Rewritten(lines), None) => assert_eq!(lines.concat(), changed.to_vec()),
        other => panic!("{:?}", other),
    }
    match merge_file(&job(Some(base), changed, base)).unwrap() {
        (MergedFile::Unchanged, None) => {}
        other => panic!("{:?}", other),
    }
}

#[test]
fn a_file_that_both_sides_changed_is_united_or_left_in_conflict() {
    let base: &[u8] = b"uno\ndos\ntres\ncuatro\n";
    let origin: &[u8] = b"UNO\ndos\ntres\ncuatro\n";
    let branch: &[u8] = b"uno\ndos\ntres\nCUATRO\n";
    match merge_file(&job(Some(base), origin, branch)).unwrap() {
        (MergedFile::Rewritten(_), Some(conflict)) => assert!(!conflict),
        other => panic!("{:?}", other),
    }
    let other_branch: &[u8] = b"Uno\ndos\ntres\ncuatro\n";
    match merge_file(&job(Some(base), origin, other_branch)).unwrap() {
        (MergedFile::Rewritten(lines), Some(conflict)) => {
            assert!(conflict);
            let text = lines.concat();
            let text = String::from_utf8(text).unwrap();
            assert!(text.contains("<<<<<<< HEAD\nUNO\n=======\nUno\n>>>>>>> BRANCH"));
        }
        other => panic!("{:?}", other),
    }
    match merge_file(&job(None, b"x\n", b"y\n")).unwrap() {
        (MergedFile::Aside(_), Some(_)) => {}
        other => panic!("{:?}", other),
    }
}

#[test]
fn the_jobs_of_a_merge_are_the_files_that_differ() {
    let mut repo = init_repository(b"repo").unwrap();
    let base = blob(&mut repo, b"base\n").get_hash();
    let ours = blob(&mut repo, b"ours\n").get_hash();
    let theirs = blob(&mut repo, b"theirs\n").get_hash();
    let origin = files(&[(b"repo/same", &base), (b"repo/both", &ours), (b"repo/only", &ours), (b"repo/fresh", &ours)]);
    let branch = files(&[(b"repo/same", &base), (b"repo/both", &theirs), (b"repo/fresh", &theirs), (b"repo/new", &theirs)]);
    let ancestor = files(&[(b"repo/same", &base), (b"repo/both", &base)]);
    let jobs = merge_jobs(&origin, &branch, &ancestor, &repo.objects).unwrap();
    assert_eq!(jobs.len(), 2);
    assert_eq!(jobs[0].path, b"repo/both".to_vec());
    assert_eq!(jobs[0].base_hash, base);
    assert_eq!(jobs[0].base_data, b"base\n".to_vec());
    assert_eq!(jobs[0].origin_data, b"ours\n".to_vec());
    assert_eq!(jobs[0].branch_data, b"theirs\n".to_vec());
    assert_eq!(jobs[1].path, b"repo/fresh".to_vec());
    assert!(jobs[1].base_hash.is_empty());
    assert!(jobs[1].base_data.is_empty());
    assert_eq!(jobs[1].origin_hash, ours);
    assert_eq!(jobs[1].branch_hash, theirs);

    let broken = files(&[(b"repo/both", A)]);
    assert_eq!(
        merge_jobs(&broken, &branch, &ancestor, &repo.objects).err(),
        Some(GitrError::ObjectNotFound)
    );
    assert_eq!(read_file_data_from_blob_hash(&base, &repo.objects), Ok(b"base\n".to_vec()));
    assert_eq!(
        read_file_data_from_blob_hash(A, &repo.objects),
        Err(GitrError::ObjectNotFound)
    );
}

#[test]
fn new_files_of_a_merge_are_staged_and_handed_out() {
    let mut repo = init_repository(b"repo").unwrap();
    let ours = blob(&mut repo, b"ours\n").get_hash();
    let theirs = blob(&mut repo, b"theirs\n").get_hash();
    let origin = files(&[(b"repo/a", &ours)]);
    let branch = files(&[(b"repo/a", &theirs), (b"repo/b", &theirs), (b"repo/c", &ours)]);
    let files_to_write = add_new_files_from_merge(&origin, &branch, &mut repo).unwrap();
    assert_eq!(
        files_to_write,
        vec![
            (b"repo/b".to_vec(), b"theirs\n".to_vec()),
            (b"repo/c".to_vec(), b"ours\n".to_vec())
        ]
    );
    assert_eq!(
        get_index_hashmap(&repo),
        Ok((files(&[(b"repo/b", &theirs), (b"repo/c", &ours)]), true))
    );
    let before = repo.index.clone();
    let missing = files(&[(b"repo/z", A)]);
    assert_eq!(
        add_new_files_from_merge(&origin, &missing, &mut repo),
        Err(GitrError::ObjectNotFound)
    );
    assert_eq!(repo.index, before);
}

#[test]
fn two_commits_are_merged_file_by_file() {
    let mut repo = init_repository(b"repo").unwrap();
    let (base_tree, _, _) = nested(&mut repo, b"uno\ndos\ntres\n", b"igual\n");
    let base = commit(&mut repo, base_tree, b"base", 1);
    let (origin_tree, _, _) = nested(&mut repo, b"UNO\ndos\ntres\n", b"igual\n");
    let origin = commit(&mut repo, origin_tree, b"origin", 2);
    let (branch_tree, _, _) = nested(&mut repo, b"Uno\ndos\ntres\n", b"igual\n");
    let branch = commit(&mut repo, branch_tree, b"branch", 3);
    let merged = three_way_merge(&base, &origin, &branch, &repo).unwrap();
    assert!(merged.hubo_conflict);
    assert_eq!(merged.archivos_conflict, names(&[b"a.txt"]));
    assert_eq!(merged.files.len(), 1);
    assert_eq!(merged.files[0].0, b"repo/a.txt".to_vec());
    assert!(matches!(merged.files[0].1, MergedFile::Rewritten(_)));

    let same = three_way_merge(&base, &origin, &origin, &repo).unwrap();
    assert!(!same.hubo_conflict);
    assert!(same.files.is_empty());
    assert_eq!(
        three_way_merge(&base, &origin, A, &repo).err(),
        Some(GitrError::ObjectNotFound)
    );
}
