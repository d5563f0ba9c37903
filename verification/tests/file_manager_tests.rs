use gitr::file_manager::{
    commit_log, find_new_path, format_commit_date, get_commit, get_commit_author,
    get_commit_author_mail, get_commit_commiter, get_commit_commiter_mail, get_commit_date,
    get_commit_message, get_current_commit, get_current_repo, get_entries_buffer_for_readtree,
    get_head, get_main_tree, get_parent_commit, get_remote, init_repository, parse_object_hash,
    read_index, read_object, read_tree_file, update_client_refs, update_head, Repository,
};
use gitr::gitr_errors::GitrError;
use gitr::objects::blob::{Blob, TreeEntry};
use gitr::objects::commit::Commit;
use gitr::objects::pull_request::PullRequest;
use gitr::objects::tree::Tree;
use gitr::server::server_utils::write_ref;

const A: &[u8] = b"74730d410fcb6603ace96f1dc55ea6196122532d";
const B: &[u8] = b"7d1665144a3a975c05f1f43902ddaf084e784dbe";

fn text(bytes: &[u8]) -> String {
    String::from_utf8(bytes.to_vec()).unwrap()
}

fn repository() -> (Repository, Vec<u8>, Vec<u8>, Vec<u8>) {
    let mut repo = init_repository(b"repo").unwrap();
    let blob = Blob::new(b"contenido".to_vec()).unwrap();
    blob.save(&mut repo.objects).unwrap();
    let tree = Tree::new(vec![(b"a.txt".to_vec(), TreeEntry::Blob(blob))]).unwrap();
    tree.save(&mut repo.objects).unwrap();
    let first = Commit::new_from_packfile(
        tree.get_hash(),
        Vec::new(),
        b"ana <ana@mail> 0 -0300".to_vec(),
        b"beto <beto@mail> 0 -0300".to_vec(),
        b"uno\n".to_vec(),
    )
    .unwrap();
    first.save(&mut repo.objects).unwrap();
    let second = Commit::new_from_packfile(
        tree.get_hash(),
        vec![first.get_hash()],
        b"ana <ana@mail> 1702329287 -0300".to_vec(),
        b"beto <beto@mail> 1702329288 -0300".to_vec(),
        b"dos\n".to_vec(),
    )
    .unwrap();
    second.save(&mut repo.objects).unwrap();
    write_ref(&mut repo.refs, b"refs/heads/master", &second.get_hash());
    (repo, first.get_hash(), second.get_hash(), tree.get_hash())
}

#[test]
fn a_new_repository_points_at_master() {
    let repo = init_repository(b"mi_repo").unwrap();
    assert_eq!(repo.name, b"mi_repo".to_vec());
    assert_eq!(get_head(&repo).unwrap(), b"refs/heads/master".to_vec());
    assert!(repo.refs.is_empty());
    assert!(repo.objects.objects.is_empty());
    assert!(get_remote(&repo).unwrap().is_empty());
    assert!(read_index(&repo).unwrap().is_empty());
    assert_eq!(get_current_commit(&repo), Err(GitrError::FileReadError));
}

#[test]
fn head_resolves_to_the_commit_of_its_branch() {
    let (mut repo, first, second, _) = repository();
    assert_eq!(get_current_commit(&repo), Ok(second.clone()));
    assert_eq!(get_commit(b"master", &repo), Ok(second));
    assert_eq!(get_commit(b"otra", &repo), Err(GitrError::FileReadError));
    write_ref(&mut repo.refs, b"refs/heads/otra", &first);
    update_head(b"refs/heads/otra", &mut repo).unwrap();
    assert_eq!(get_current_commit(&repo), Ok(first));
    update_head(b"None", &mut repo).unwrap();
    assert_eq!(get_current_commit(&repo), Err(GitrError::NoHead));
}

#[test]
fn paths_are_put_together() {
    assert_eq!(get_current_repo(b"cliente", b"repo"), Ok(b"cliente/repo".to_vec()));
    assert_eq!(get_current_repo(b"server/repos/r", b"x"), Ok(b"server/repos/r".to_vec()));
    assert_eq!(
        parse_object_hash(A, b"cliente/repo", true),
        Ok(b"cliente/repo/gitr/objects/74/730d410fcb6603ace96f1dc55ea6196122532d".to_vec())
    );
    assert_eq!(
        parse_object_hash(A, b"server/repos/r", true),
        Ok(b"server/repos/r/objects/74/730d410fcb6603ace96f1dc55ea6196122532d".to_vec())
    );
    assert_eq!(parse_object_hash(b"74", b"x", false), Err(GitrError::ObjectNotFound));
}

#[test]
fn advertised_references_are_taken_over() {
    let mut repo = init_repository(b"repo").unwrap();
    let advertised = vec![
        (A.to_vec(), b"HEAD".to_vec()),
        (B.to_vec(), b"refs\\heads\\otra".to_vec()),
        (A.to_vec(), b"refs/heads/main".to_vec()),
    ];
    assert_eq!(find_new_path(A, &advertised), b"refs/heads/main".to_vec());
    assert_eq!(find_new_path(b"nada", &advertised), Vec::<u8>::new());
    update_client_refs(advertised, &mut repo).unwrap();
    assert_eq!(repo.head, b"refs/heads/main".to_vec());
    assert_eq!(
        repo.refs,
        vec![
            (B.to_vec(), b"refs/heads/otra".to_vec()),
            (A.to_vec(), b"refs/heads/main".to_vec())
        ]
    );
}

#[test]
fn trees_are_made_readable() {
    let mut data = b"tree 64\0100644 a.txt\0".to_vec();
    data.extend_from_slice(&[0xab; 20]);
    data.extend_from_slice(b"40000 dir\0");
    data.extend_from_slice(&[0x01; 20]);
    let readable = read_tree_file(data.clone()).unwrap();
    let expected = format!(
        "tree 64\0100644 a.txt\0{}\n40000 dir\0{}",
        "ab".repeat(20),
        "01".repeat(20)
    );
    assert_eq!(text(&readable), expected);
    assert_eq!(
        text(&get_entries_buffer_for_readtree(&data, 8)),
        expected["tree 64\0".len()..].to_string()
    );
    assert!(get_entries_buffer_for_readtree(&data, 500).is_empty());
}

#[test]
fn objects_are_read_in_readable_form() {
    let (repo, _, second, tree) = repository();
    let commit = read_object(&second, &repo.objects).unwrap();
    assert!(commit.starts_with(b"commit "));
    assert_eq!(commit, repo.objects.get_object_bytes(&second).unwrap());
    let readable = read_object(&tree, &repo.objects).unwrap();
    let blob_id = Blob::new(b"contenido".to_vec()).unwrap().get_hash();
    assert_eq!(text(&readable), format!("tree 33\0100644 a.txt\0{}", text(&blob_id)));
    assert_eq!(read_object(A, &repo.objects), Err(GitrError::ObjectNotFound));
}

#[test]
fn fields_of_a_commit_are_read() {
    let (repo, first, second, tree) = repository();
    let store = &repo.objects;
    assert_eq!(get_main_tree(&second, store), Ok(tree.clone()));
    assert_eq!(get_parent_commit(&second, store), Ok(vec![first.clone()]));
    assert_eq!(get_parent_commit(&first, store), Ok(vec![b"None".to_vec()]));
    assert_eq!(get_commit_author(&second, store), Ok(b"ana".to_vec()));
    assert_eq!(get_commit_author_mail(&second, store), Ok(b"<ana@mail>".to_vec()));
    assert_eq!(get_commit_commiter(&second, store), Ok(b"beto".to_vec()));
    assert_eq!(get_commit_commiter_mail(&second, store), Ok(b"<beto@mail>".to_vec()));
    assert_eq!(get_commit_message(&second, store), Ok(b"dos\n".to_vec()));
    assert_eq!(get_commit_author(&tree, store), Err(GitrError::MalformedObject));
    assert_eq!(get_main_tree(A, store), Err(GitrError::ObjectNotFound));
}

#[test]
fn dates_are_told_three_hours_west_of_greenwich() {
    assert_eq!(text(&format_commit_date(0).unwrap()), "Wed Dec 31 21:00:00 1969 -0300");
    assert_eq!(text(&format_commit_date(1702329287).unwrap()), "Mon Dec 11 18:14:47 2023 -0300");
    assert_eq!(format_commit_date(i64::MAX), Err(GitrError::TimeError));
    assert_eq!(format_commit_date(i64::MIN), Err(GitrError::TimeError));
    let (repo, first, second, _) = repository();
    assert_eq!(
        text(&get_commit_date(&second, &repo.objects).unwrap()),
        "Mon Dec 11 18:14:47 2023 -0300"
    );
    assert_eq!(
        text(&get_commit_date(&first, &repo.objects).unwrap()),
        "Wed Dec 31 21:00:00 1969 -0300"
    );
}

#[test]
fn a_commit_without_a_time_has_no_date() {
    let mut repo = init_repository(b"repo").unwrap();
    let commit = Commit::new_from_packfile(
        A.to_vec(),
        Vec::new(),
        b"ana <ana@mail> ayer -0300".to_vec(),
        b"beto".to_vec(),
        b"m".to_vec(),
    )
    .unwrap();
    commit.save(&mut repo.objects).unwrap();
    assert_eq!(get_commit_date(&commit.get_hash(), &repo.objects), Err(GitrError::TimeError));
    assert_eq!(
        get_commit_commiter_mail(&commit.get_hash(), &repo.objects),
        Err(GitrError::MalformedObject)
    );
}

#[test]
fn the_log_goes_back_along_first_parents() {
    let (repo, first, second, _) = repository();
    let all = commit_log(b"0", &repo).unwrap();
    let expected = format!(
        "commit: {}\nAuthor: ana\nDate: Mon Dec 11 18:14:47 2023 -0300\n\tdos\n\n\n\
commit: {}\nAuthor: ana\nDate: Wed Dec 31 21:00:00 1969 -0300\n\tuno\n\n\n",
        text(&second),
        text(&first)
    );
    assert_eq!(text(&all), expected);
    let one = commit_log(b"1", &repo).unwrap();
    assert!(expected.starts_with(&text(&one)));
    assert_eq!(text(&one).matches("commit: ").count(), 1);
    assert_eq!(commit_log(b"5", &repo).unwrap(), all);
    assert_eq!(commit_log(b"muchos", &repo), Err(GitrError::InvalidArgumentError));
}

#[test]
fn the_log_names_both_parents_of_a_merge() {
    let (mut repo, first, second, tree) = repository();
    let merge = Commit::new_from_packfile(
        tree,
        vec![second.clone(), first.clone()],
        b"ana <ana@mail> 0 -0300".to_vec(),
        b"ana <ana@mail> 0 -0300".to_vec(),
        b"union\n".to_vec(),
    )
    .unwrap();
    merge.save(&mut repo.objects).unwrap();
    write_ref(&mut repo.refs, b"refs/heads/master", &merge.get_hash());
    let log = text(&commit_log(b"1", &repo).unwrap());
    assert!(log.starts_with(&format!(
        "Merge: {} {}\ncommit: {}\n",
        &text(&second)[..7],
        &text(&first)[..7],
        text(&merge.get_hash())
    )));
}

#[test]
fn pull_requests_open_and_close() {
    let mut pr = PullRequest::new(
        3,
        b"titulo".to_vec(),
        b"descripcion".to_vec(),
        b"rama".to_vec(),
        b"master".to_vec(),
    );
    assert_eq!(pr.id, 3);
    assert_eq!(pr.get_status(), &b"open".to_vec());
    assert_eq!(pr.get_branch_name(), b"rama".to_vec());
    assert_eq!(pr.get_base_name(), b"master".to_vec());
    pr.close();
    assert_eq!(pr.get_status(), &b"closed".to_vec());
    assert_eq!(pr.title, b"titulo".to_vec());
}
