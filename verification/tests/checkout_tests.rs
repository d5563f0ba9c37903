use gitr::commands::adding::{
    add_files_command, check_ignore_, create_blob, get_blobs_from_commit,
    get_branch_to_checkout, get_ls_files_cached, get_object_hash, get_user_mail_from_config,
    get_working_dir_hashmap, path_is_ignored, save_and_add_blob_to_index, skipped_by_add,
    stage_all, update_index_before_add,
};
use gitr::commands::status::{file_id, get_ls_files_deleted_modified};
use gitr::objects::tree::Tree;
use gitr::commands::checkout::{checkout, kept_on_delete, update_working_directory};
use gitr::commands::snapshot::get_commit_hashmap;
use gitr::commands::staging::get_index_hashmap;
use gitr::commands::write_tree::{
    create_merge_commit, create_trees, get_tree_entries, merge_message_for,
};
use gitr::file_manager::{
    get_commit, get_current_commit, get_head, init_repository, load_commit, Repository,
};
use gitr::gitr_errors::GitrError;
use gitr::text::{has_text, replace_text, stands_at};

const A: &[u8] = b"74730d410fcb6603ace96f1dc55ea6196122532d";

fn names(list: &[&[u8]]) -> Vec<Vec<u8>> {
    list.iter().map(|w| w.to_vec()).collect()
}

fn stage(repo: &mut Repository, path: &[u8], data: &[u8]) {
    save_and_add_blob_to_index(path, data.to_vec(), b"", repo).unwrap();
}

fn committed() -> (Repository, Vec<u8>) {
    let mut repo = init_repository(b"repo").unwrap();
    stage(&mut repo, b"repo/a.txt", b"uno\n");
    stage(&mut repo, b"repo/dir/b.txt", b"dos\n");
    stage(&mut repo, b"repo/dir/sub/c.txt", b"tres\n");
    let id = get_tree_entries(b"primero", b"None".to_vec(), b"ana", b"a@m", 1, &mut repo).unwrap();
    (repo, id)
}

#[test]
fn text_is_found_inside_text() {
    assert!(has_text(b"repo/gitr/index", b"gitr"));
    assert!(has_text(b"gitr", b"gitr"));
    assert!(has_text(b"abc", b""));
    assert!(has_text(b"", b""));
    assert!(!has_text(b"git", b"gitr"));
    assert!(!has_text(b"", b"x"));
    assert!(stands_at(b"abcd", b"cd", 2));
    assert!(!stands_at(b"abcd", b"cd", 3));
    assert!(!stands_at(b"abcd", b"cd", 9));
    assert!(skipped_by_add(b"repo/gitrignore"));
    assert!(!skipped_by_add(b"repo/a.txt"));
}

#[test]
fn ignored_paths_are_those_the_ignore_file_names() {
    let paths = names(&[b"repo/a.txt", b"repo/tmp", b"repo/b.txt"]);
    assert_eq!(check_ignore_(&paths, b"/tmp\n/b.txt", b"repo"), Ok(names(&[b"repo/tmp", b"repo/b.txt"])));
    assert_eq!(check_ignore_(&paths, b"tmp", b"repo"), Ok(Vec::new()));
    assert_eq!(path_is_ignored(b"repo/tmp", b"/tmp\n/b.txt", b"repo"), Ok(true));
    assert_eq!(path_is_ignored(b"repo/a.txt", b"/tmp\n/b.txt", b"repo"), Ok(false));
}

#[test]
fn a_file_is_staged_unless_it_is_ignored() {
    let mut repo = init_repository(b"repo").unwrap();
    assert_eq!(
        save_and_add_blob_to_index(b"repo/tmp", b"x".to_vec(), b"/tmp", &mut repo),
        Ok(())
    );
    assert!(repo.index.is_empty());
    assert!(repo.objects.objects.is_empty());
    assert_eq!(
        save_and_add_blob_to_index(b"repo/a.txt", b"hello world\n".to_vec(), b"/tmp", &mut repo),
        Ok(())
    );
    assert_eq!(
        get_index_hashmap(&repo),
        Ok((
            vec![(b"repo/a.txt".to_vec(), b"3b18e512dba79e4c8300dd08aeb37f8e728b8dad".to_vec())],
            true
        ))
    );
    assert!(repo.objects.contains(b"3b18e512dba79e4c8300dd08aeb37f8e728b8dad"));
    assert_eq!(get_ls_files_cached(&repo), Ok(b"a.txt\n".to_vec()));
}

#[test]
fn the_hash_of_an_object_is_given_and_the_object_saved_on_demand() {
    let mut repo = init_repository(b"repo").unwrap();
    assert_eq!(
        get_object_hash(b"hello world\n".to_vec(), false, &mut repo.objects),
        Ok(b"3b18e512dba79e4c8300dd08aeb37f8e728b8dad".to_vec())
    );
    assert!(repo.objects.objects.is_empty());
    assert_eq!(
        get_object_hash(b"hello world\n".to_vec(), true, &mut repo.objects),
        Ok(b"3b18e512dba79e4c8300dd08aeb37f8e728b8dad".to_vec())
    );
    assert_eq!(repo.objects.objects.len(), 1);
}

#[test]
fn the_mail_is_read_from_the_second_line_of_the_configuration() {
    assert_eq!(
        get_user_mail_from_config(b"[user]\n\temail = ana@mail.com\n"),
        Ok(b"ana@mail.com".to_vec())
    );
    assert_eq!(get_user_mail_from_config(b"[user]\nemail=x"), Ok(b"x".to_vec()));
    assert_eq!(get_user_mail_from_config(b"[user]"), Err(GitrError::FileReadError));
    assert_eq!(get_user_mail_from_config(b"[user]\nsin igual"), Err(GitrError::FileReadError));
}

#[test]
fn a_commit_of_the_index_holds_its_files_in_trees() {
    let (repo, id) = committed();
    assert_eq!(get_current_commit(&repo), Ok(id.clone()));
    let (staged, _) = get_index_hashmap(&repo).unwrap();
    assert_eq!(get_commit_hashmap(&id, &repo), Ok(staged));
    assert_eq!(get_blobs_from_commit(&id, &repo), Ok(()));
    assert_eq!(get_blobs_from_commit(A, &repo), Err(GitrError::ObjectNotFound));
    let commit = load_commit(&id, &repo.objects).unwrap();
    assert_eq!(commit.get_message(), b"primero\n".to_vec());
    assert!(commit.get_parent_ids().is_empty());
}

#[test]
fn trees_are_built_for_the_directory_asked_for() {
    let (mut repo, _) = committed();
    let (staged, _) = get_index_hashmap(&repo).unwrap();
    let held = repo.objects.objects.len();
    let inner = create_trees(&staged, b"repo/dir", &mut repo.objects).unwrap();
    assert_eq!(repo.objects.objects.len(), held);
    assert_eq!(inner.len(), 2);
    assert_eq!(inner.get_entry(0).1, b"b.txt".to_vec());
    assert!(!inner.get_entry(0).0);
    assert_eq!(inner.get_entry(1).1, b"sub".to_vec());
    assert!(inner.get_entry(1).0);
    let none = create_trees(&staged, b"otro", &mut repo.objects).unwrap();
    assert_eq!(none.len(), 0);
    assert_eq!(none.get_hash(), b"4b825dc642cb6eb9a060e54bf8d69288fbee4904".to_vec());
    let broken = vec![(b"repo/x".to_vec(), A.to_vec())];
    assert_eq!(
        create_trees(&broken, b"repo", &mut repo.objects).err(),
        Some(GitrError::ObjectNotFound)
    );
}

#[test]
fn a_merge_commit_names_the_branch_and_has_two_parents() {
    let (mut repo, first) = committed();
    assert_eq!(merge_message_for(b"rama"), b"Merge branch 'rama'".to_vec());
    stage(&mut repo, b"repo/a.txt", b"otro\n");
    let merged =
        create_merge_commit(b"rama", first.clone(), b"ana", b"a@m", 5, &mut repo).unwrap().unwrap();
    let commit = load_commit(&merged, &repo.objects).unwrap();
    assert_eq!(commit.get_parent_ids(), vec![first.clone(), first]);
    assert_eq!(commit.get_message(), b"Merge branch 'rama'\n".to_vec());
    let mut empty = init_repository(b"repo").unwrap();
    assert_eq!(create_merge_commit(b"rama", A.to_vec(), b"ana", b"a@m", 5, &mut empty), Ok(None));
}

#[test]
fn the_branch_to_check_out_is_found_or_made() {
    let (mut repo, id) = committed();
    assert_eq!(get_branch_to_checkout(&names(&[b"master"]), &mut repo), Ok(b"master".to_vec()));
    assert_eq!(
        get_branch_to_checkout(&names(&[b"nada"]), &mut repo),
        Err(GitrError::BranchNonExistsError)
    );
    assert_eq!(get_branch_to_checkout(&names(&[b"-b", b"nueva"]), &mut repo), Ok(b"nueva".to_vec()));
    assert_eq!(get_commit(b"nueva", &repo), Ok(id));
    assert_eq!(
        get_branch_to_checkout(&names(&[b"-b", b"nueva"]), &mut repo),
        Err(GitrError::BranchAlreadyExistsError)
    );
    assert_eq!(
        get_branch_to_checkout(&Vec::new(), &mut repo),
        Err(GitrError::InvalidArgumentError)
    );
}

#[test]
fn a_checkout_moves_head_and_gives_the_files_of_the_branch() {
    let (mut repo, first) = committed();
    let files = checkout(&names(&[b"-b", b"rama"]), &mut repo).unwrap();
    assert_eq!(get_head(&repo), Ok(b"refs/heads/rama".to_vec()));
    assert_eq!(
        files,
        vec![
            (b"repo/a.txt".to_vec(), b"uno\n".to_vec()),
            (b"repo/dir/b.txt".to_vec(), b"dos\n".to_vec()),
            (b"repo/dir/sub/c.txt".to_vec(), b"tres\n".to_vec())
        ]
    );
    stage(&mut repo, b"repo/a.txt", b"cambiado\n");
    let second = get_tree_entries(b"segundo", b"None".to_vec(), b"ana", b"a@m", 2, &mut repo).unwrap();
    assert_eq!(get_commit(b"rama", &repo), Ok(second));
    assert_eq!(get_commit(b"master", &repo), Ok(first.clone()));

    let files = checkout(&names(&[b"master"]), &mut repo).unwrap();
    assert_eq!(get_head(&repo), Ok(b"refs/heads/master".to_vec()));
    assert_eq!(files[0], (b"repo/a.txt".to_vec(), b"uno\n".to_vec()));
    assert_eq!(get_index_hashmap(&repo).unwrap().0, get_commit_hashmap(&first, &repo).unwrap());

    assert_eq!(checkout(&Vec::new(), &mut repo), Err(GitrError::InvalidArgumentError));
    assert_eq!(
        checkout(&names(&[b"a", b"b"]), &mut repo),
        Err(GitrError::InvalidArgumentError)
    );
    assert_eq!(
        checkout(&names(&[b"a", b"b", b"c"]), &mut repo),
        Err(GitrError::InvalidArgumentError)
    );
    assert_eq!(checkout(&names(&[b"nada"]), &mut repo), Err(GitrError::BranchNonExistsError));
    assert_eq!(get_head(&repo), Ok(b"refs/heads/master".to_vec()));
    let mut empty = init_repository(b"repo").unwrap();
    assert_eq!(checkout(&names(&[b"master"]), &mut empty), Err(GitrError::NoCommitExisting));
}

#[test]
fn the_working_directory_follows_a_commit() {
    let (mut repo, id) = committed();
    let before = repo.index.clone();
    assert_eq!(update_working_directory(A, &mut repo), Err(GitrError::ObjectNotFound));
    assert_eq!(repo.index, before);
    let files = update_working_directory(&id, &mut repo).unwrap();
    assert_eq!(files.len(), 3);
    assert_eq!(repo.index, before);
    assert!(kept_on_delete(b"gitr"));
    assert!(kept_on_delete(b".git"));
    assert!(kept_on_delete(b"gitrignore"));
    assert!(!kept_on_delete(b"a.txt"));
}

#[test]
fn text_is_replaced_from_the_left() {
    assert_eq!(replace_text(b"aXbXc", b"X", b"--"), b"a--b--c".to_vec());
    assert_eq!(replace_text(b"aaa", b"aa", b"b"), b"ba".to_vec());
    assert_eq!(replace_text(b"abc", b"", b"x"), b"abc".to_vec());
    assert_eq!(replace_text(b"abc", b"abc", b""), Vec::<u8>::new());
    assert_eq!(replace_text(b"", b"a", b"b"), Vec::<u8>::new());
}

#[test]
fn deleted_and_modified_files_are_read_out_of_the_status() {
    let status = b"Changes not staged for commit:\n  (use \"add <file>...\" to update what will be committed)\n  (use \"rm <file>...\" to discard changes in working directory)\n\t\x1b[31mdeleted:   gone.txt\x1b[0m\n\t\x1b[92mmodified   mod.txt\x1b[0m\n";
    assert_eq!(
        get_ls_files_deleted_modified(true, status),
        Ok(b"\t\x1b[31mgone.txt\x1b[0m\n".to_vec())
    );
    assert_eq!(
        get_ls_files_deleted_modified(false, status),
        Ok(b"\t\x1b[31mgone.txt\x1b[0m\n\t\x1b[92mmod.txt\x1b[0m\n".to_vec())
    );
    assert_eq!(get_ls_files_deleted_modified(true, b""), Ok(Vec::new()));
}

#[test]
fn files_are_staged_by_name_or_all_at_once() {
    let work = vec![
        (b"repo/a.txt".to_vec(), b"uno\n".to_vec()),
        (b"repo/gitr/index".to_vec(), b"x".to_vec()),
        (b"repo/dir/b.txt".to_vec(), b"hello world\n".to_vec()),
    ];
    let map = get_working_dir_hashmap(&work).unwrap();
    assert_eq!(map.len(), 3);
    assert_eq!(map[2], (b"repo/dir/b.txt".to_vec(), b"3b18e512dba79e4c8300dd08aeb37f8e728b8dad".to_vec()));

    let mut repo = init_repository(b"repo").unwrap();
    assert_eq!(add_files_command(b"nada.txt", &work, b"", &mut repo), Err(GitrError::FileReadError));
    assert!(repo.index.is_empty());
    assert_eq!(add_files_command(b"dir/b.txt", &work, b"", &mut repo), Ok(()));
    assert_eq!(get_index_hashmap(&repo).unwrap().0, vec![map[2].clone()]);
    assert_eq!(add_files_command(b".", &work, b"", &mut repo), Ok(()));
    assert_eq!(get_index_hashmap(&repo).unwrap().0, vec![map[2].clone(), map[0].clone()]);

    let changed = vec![(b"repo/a.txt".to_vec(), b"otro\n".to_vec())];
    assert_eq!(update_index_before_add(&changed, b"", &mut repo), Ok(()));
    assert_eq!(
        get_index_hashmap(&repo).unwrap().0,
        get_working_dir_hashmap(&changed).unwrap()
    );
    let mut other = init_repository(b"repo").unwrap();
    assert_eq!(update_index_before_add(&changed, b"", &mut other), Ok(()));
    assert!(other.index.is_empty());
    assert_eq!(stage_all(&work, b"/a.txt", &mut other), Ok(()));
    assert_eq!(get_index_hashmap(&other).unwrap().0, vec![map[1].clone(), map[2].clone()]);

    let id = map[2].1.clone();
    assert_eq!(create_blob(b"repo/copia.txt", &id, &mut other), Ok(b"hello world\n".to_vec()));
    assert_eq!(file_id(&get_index_hashmap(&other).unwrap().0, b"repo/copia.txt"), Some(id));
    assert_eq!(create_blob(b"repo/x", A, &mut other), Err(GitrError::ObjectNotFound));
}

#[test]
fn the_ids_of_a_tree_are_read_out_of_its_readable_form() {
    let text = b"tree 74\x00100644 a.txt\x0074730d410fcb6603ace96f1dc55ea6196122532d\n40000 dir\x007d1665144a3a975c05f1f43902ddaf084e784dbe";
    assert_eq!(
        Tree::get_objects_id_from_string(text),
        Ok(vec![
            b"74730d410fcb6603ace96f1dc55ea6196122532d".to_vec(),
            b"7d1665144a3a975c05f1f43902ddaf084e784dbe".to_vec()
        ])
    );
    assert_eq!(Tree::get_objects_id_from_string(b"blob 3\0abc"), Err(GitrError::MalformedObject));
    assert_eq!(Tree::get_objects_id_from_string(b"tree 3"), Err(GitrError::MalformedObject));
    assert_eq!(Tree::get_objects_id_from_string(b"tree 3\0abc"), Err(GitrError::MalformedObject));
}
