use gitr::commands::command_utils::{
    armar_path, branch_commits_list, branch_delete_flag, branch_exists, branch_move_flag,
    branch_newbranch_flag, fast_forward_merge, get_branches, get_current_username, get_tags,
    get_tags_str, print_branches, write_new_commit_and_branch,
};
use gitr::commands::handler::{
    command_handler, command_of, next_state, parse_input, second_parent, Command,
};
use gitr::commands::inspect::{_cat_file, get_object_properties, get_tree_data};
use gitr::commands::tags::{
    commit_existing, create_annotated_tag, create_lightweight_tag, delete_branch, delete_tag,
    get_refs_ids, write_reference_from_cloning,
};
use gitr::file_manager::{
    get_commit, get_current_commit, get_head, init_repository, load_commit, update_head,
    Repository,
};
use gitr::git_transport::ref_discovery::handshake;
use gitr::gitr_errors::GitrError;
use gitr::objects::blob::{Blob, TreeEntry};
use gitr::objects::commit::Commit;
use gitr::objects::git_object::GitObject;
use gitr::objects::tag::Tag;
use gitr::objects::tree::Tree;
use gitr::server::server_utils::{handle_pkt_line, remove_ref, write_ref};

fn words(list: &[&[u8]]) -> Vec<Vec<u8>> {
    list.iter().map(|w| w.to_vec()).collect()
}

fn tree_of(repo: &mut Repository, files: &[(&[u8], &[u8])]) -> Vec<u8> {
    let mut entries = Vec::new();
    for (name, content) in files {
        let blob = Blob::new(content.to_vec()).unwrap();
        blob.save(&mut repo.objects).unwrap();
        entries.push((name.to_vec(), TreeEntry::Blob(blob)));
    }
    let tree = Tree::new(entries).unwrap();
    tree.save(&mut repo.objects).unwrap();
    tree.get_hash()
}

fn repo_with_commit() -> (Repository, Vec<u8>) {
    let mut repo = init_repository(b"repo").unwrap();
    let tree = tree_of(&mut repo, &[(b"a.txt", b"hola\n")]);
    let id = write_new_commit_and_branch(
        tree,
        b"\"primero\"",
        b"None".to_vec(),
        b"ana",
        b"ana@mail",
        10,
        &mut repo,
    )
    .unwrap();
    (repo, id)
}

#[test]
fn the_first_commit_has_no_parents_and_makes_the_branch() {
    let (repo, id) = repo_with_commit();
    assert_eq!(get_current_commit(&repo), Ok(id.clone()));
    assert_eq!(get_commit(b"master", &repo), Ok(id.clone()));
    let commit = load_commit(&id, &repo.objects).unwrap();
    assert!(commit.get_parent_ids().is_empty());
    assert_eq!(commit.get_author(), b"ana <ana@mail> 10 -0300".to_vec());
    assert_eq!(commit.get_committer(), b"ana <ana@mail> 10 -0300".to_vec());
    assert_eq!(commit.get_message(), b"primero\n".to_vec());
}

#[test]
fn a_later_commit_has_the_current_commit_as_parent() {
    let (mut repo, first) = repo_with_commit();
    let tree = tree_of(&mut repo, &[(b"a.txt", b"chau\n")]);
    let second = write_new_commit_and_branch(
        tree.clone(),
        b"segundo",
        b"None".to_vec(),
        b"ana",
        b"ana@mail",
        20,
        &mut repo,
    )
    .unwrap();
    let commit = load_commit(&second, &repo.objects).unwrap();
    assert_eq!(commit.get_parent_ids(), vec![first.clone()]);
    assert_eq!(commit.get_tree(), tree);
    assert_eq!(get_current_commit(&repo), Ok(second.clone()));
    assert_eq!(branch_commits_list(b"master", &repo), Ok(vec![second, first]));
    assert_eq!(branch_commits_list(b"otra", &repo), Err(GitrError::FileReadError));
}

#[test]
fn a_merge_commit_has_two_parents() {
    let (mut repo, first) = repo_with_commit();
    let tree = tree_of(&mut repo, &[(b"b.txt", b"otro\n")]);
    let other = Commit::new(tree.clone(), Vec::new(), b"beto", b"beto", b"rama", b"b@mail", 15)
        .unwrap();
    other.save(&mut repo.objects).unwrap();
    let merged = write_new_commit_and_branch(
        tree,
        b"Merge branch 'rama'",
        other.get_hash(),
        b"ana",
        b"ana@mail",
        30,
        &mut repo,
    )
    .unwrap();
    let commit = load_commit(&merged, &repo.objects).unwrap();
    assert_eq!(commit.get_parent_ids(), vec![first, other.get_hash()]);
}

#[test]
fn a_commit_on_a_malformed_tree_id_changes_nothing() {
    let (mut repo, first) = repo_with_commit();
    let objects = repo.objects.objects.len();
    let r = write_new_commit_and_branch(
        b"no es un id".to_vec(),
        b"x",
        b"None".to_vec(),
        b"ana",
        b"ana@mail",
        1,
        &mut repo,
    );
    assert_eq!(r, Err(GitrError::MalformedObject));
    assert_eq!(get_current_commit(&repo), Ok(first));
    assert_eq!(repo.objects.objects.len(), objects);
}

#[test]
fn commit_new_writes_identity_and_message() {
    let tree = b"4b825dc642cb6eb9a060e54bf8d69288fbee4904".to_vec();
    let commit = Commit::new(tree.clone(), Vec::new(), b"ana", b"beto", b"\"un mensaje\"", b"m@x", 7)
        .unwrap();
    assert_eq!(commit.get_tree(), tree);
    assert_eq!(commit.get_author(), b"ana <m@x> 7 -0300".to_vec());
    assert_eq!(commit.get_committer(), b"beto <m@x> 7 -0300".to_vec());
    assert_eq!(commit.get_message(), b"un mensaje\n".to_vec());
    assert_eq!(
        commit.get_content(),
        b"tree 4b825dc642cb6eb9a060e54bf8d69288fbee4904\nauthor ana <m@x> 7 -0300\ncommitter beto <m@x> 7 -0300\n\nun mensaje\n"
            .to_vec()
    );
    assert!(Commit::new(b"corto".to_vec(), Vec::new(), b"a", b"b", b"m", b"x", 0).is_err());
}

#[test]
fn tag_new_writes_tagger_and_message() {
    let target = b"74730d410fcb6603ace96f1dc55ea6196122532d".to_vec();
    let tag = Tag::new(b"v1".to_vec(), b"primera version", target.clone(), b"ana", b"a@mail", 5)
        .unwrap();
    assert_eq!(tag.get_commit_hash(), target);
    assert_eq!(
        tag.get_content(),
        b"object 74730d410fcb6603ace96f1dc55ea6196122532d\ntype commit\ntag v1\ntagger ana <a@mail> 5 -0300\n\nprimera version\n"
            .to_vec()
    );
    assert!(Tag::new(b"v1".to_vec(), b"m", b"xyz".to_vec(), b"ana", b"a@mail", 5).is_err());
}

#[test]
fn branches_are_made_listed_moved_and_deleted() {
    let (mut repo, id) = repo_with_commit();
    assert!(branch_exists(b"master", &repo));
    assert!(!branch_exists(b"nueva", &repo));
    assert_eq!(branch_newbranch_flag(b"nueva", &mut repo), Ok(()));
    assert_eq!(get_commit(b"nueva", &repo), Ok(id.clone()));
    assert_eq!(
        branch_newbranch_flag(b"nueva", &mut repo),
        Err(GitrError::BranchAlreadyExistsError)
    );
    assert_eq!(get_branches(&repo), Ok(words(&[b"master", b"nueva"])));
    assert_eq!(print_branches(&repo), Ok(b"* \x1b[92mmaster\x1b[0m\nnueva\n".to_vec()));

    assert_eq!(branch_move_flag(b"nueva", b"otra", &mut repo), Ok(()));
    assert!(!branch_exists(b"nueva", &repo));
    assert_eq!(get_commit(b"otra", &repo), Ok(id.clone()));
    assert_eq!(
        branch_move_flag(b"nueva", b"x", &mut repo),
        Err(GitrError::BranchNonExistsError)
    );
    assert_eq!(
        branch_move_flag(b"otra", b"master", &mut repo),
        Err(GitrError::BranchAlreadyExistsError)
    );

    assert_eq!(
        branch_delete_flag(b"master", &mut repo),
        Err(GitrError::DeleteCurrentBranchError)
    );
    assert_eq!(branch_delete_flag(b"nada", &mut repo), Err(GitrError::BranchNonExistsError));
    assert_eq!(branch_delete_flag(b"otra", &mut repo), Ok(()));
    assert_eq!(get_branches(&repo), Ok(words(&[b"master"])));
}

#[test]
fn moving_the_current_branch_takes_head_along() {
    let (mut repo, id) = repo_with_commit();
    assert_eq!(branch_move_flag(b"master", b"main", &mut repo), Ok(()));
    assert_eq!(get_head(&repo), Ok(b"refs/heads/main".to_vec()));
    assert_eq!(get_current_commit(&repo), Ok(id));
}

#[test]
fn a_new_branch_needs_a_commit() {
    let mut repo = init_repository(b"repo").unwrap();
    assert!(branch_newbranch_flag(b"nueva", &mut repo).is_err());
    assert!(repo.refs.is_empty());
}

#[test]
fn fast_forward_moves_the_current_branch() {
    let (mut repo, first) = repo_with_commit();
    branch_newbranch_flag(b"rama", &mut repo).unwrap();
    update_head(b"refs/heads/rama", &mut repo).unwrap();
    let tree = tree_of(&mut repo, &[(b"a.txt", b"mas\n")]);
    let second =
        write_new_commit_and_branch(tree, b"dos", b"None".to_vec(), b"ana", b"a@m", 2, &mut repo)
            .unwrap();
    update_head(b"refs/heads/master", &mut repo).unwrap();
    assert_eq!(get_current_commit(&repo), Ok(first));
    assert_eq!(fast_forward_merge(b"rama", &mut repo), Ok(()));
    assert_eq!(get_current_commit(&repo), Ok(second.clone()));
    assert_eq!(get_commit(b"rama", &repo), Ok(second));
    assert!(fast_forward_merge(b"ninguna", &mut repo).is_err());
}

#[test]
fn tags_are_made_listed_and_deleted() {
    let (mut repo, id) = repo_with_commit();
    assert_eq!(create_lightweight_tag(b"v1", &mut repo), Ok(true));
    assert_eq!(
        create_lightweight_tag(b"v1", &mut repo),
        Err(GitrError::TagAlreadyExistsError)
    );
    assert_eq!(create_annotated_tag(b"v2", b"segunda", b"ana", b"a@m", 9, &mut repo), Ok(true));
    assert_eq!(get_tags(&repo), Ok(words(&[b"v1", b"v2"])));
    assert_eq!(get_tags_str(&repo), Ok(b"v1\nv2".to_vec()));
    let ids = get_refs_ids(b"tags", &repo).unwrap();
    assert_eq!(ids.len(), 2);
    assert_eq!(ids[0], id);
    match repo.objects.get(&ids[1]).unwrap() {
        GitObject::Tag(tag) => {
            assert_eq!(tag.get_commit_hash(), id);
            assert_eq!(
                tag.get_content(),
                [
                    b"object ".to_vec(),
                    id.clone(),
                    b"\ntype commit\ntag v2\ntagger ana <a@m> 9 -0300\n\nsegunda\n".to_vec()
                ]
                .concat()
            );
        }
        _ => panic!("the tag points at no tag object"),
    }
    assert_eq!(get_refs_ids(b"heads", &repo), Ok(vec![id.clone()]));

    let said = delete_tag(b"v1", &mut repo).unwrap();
    assert_eq!(said, [b"Deleted tag 'v1' (was ".to_vec(), id[..7].to_vec(), b")".to_vec()].concat());
    assert_eq!(delete_tag(b"v1", &mut repo), Err(GitrError::TagNonExistsError));
    assert_eq!(get_tags(&repo), Ok(words(&[b"v2"])));
}

#[test]
fn tags_need_a_commit() {
    let mut repo = init_repository(b"repo").unwrap();
    assert_eq!(create_lightweight_tag(b"v1", &mut repo), Ok(false));
    assert_eq!(create_annotated_tag(b"v1", b"m", b"ana", b"a@m", 1, &mut repo), Ok(false));
    assert!(repo.refs.is_empty());
    assert!(repo.objects.objects.is_empty());
    assert_eq!(get_tags_str(&repo), Ok(Vec::new()));
    assert_eq!(commit_existing(&repo), Err(GitrError::NoCommitExisting));
    update_head(b"None", &mut repo).unwrap();
    assert_eq!(commit_existing(&repo), Err(GitrError::NoHead));
}

#[test]
fn deleting_a_branch_spares_the_current_one_unless_moving() {
    let (mut repo, _) = repo_with_commit();
    branch_newbranch_flag(b"rama", &mut repo).unwrap();
    assert_eq!(commit_existing(&repo), Ok(()));
    assert_eq!(
        delete_branch(b"master", false, &mut repo),
        Err(GitrError::DeleteCurrentBranchError)
    );
    assert_eq!(delete_branch(b"rama", false, &mut repo), Ok(()));
    assert!(!branch_exists(b"rama", &repo));
    assert_eq!(delete_branch(b"master", true, &mut repo), Ok(()));
    assert!(!branch_exists(b"master", &repo));
}

#[test]
fn removing_a_reference_leaves_the_others() {
    let mut refs = Vec::new();
    write_ref(&mut refs, b"refs/heads/a", b"1");
    write_ref(&mut refs, b"refs/heads/b", b"2");
    write_ref(&mut refs, b"refs/heads/c", b"3");
    remove_ref(&mut refs, b"refs/heads/b");
    assert_eq!(
        refs,
        vec![
            (b"1".to_vec(), b"refs/heads/a".to_vec()),
            (b"3".to_vec(), b"refs/heads/c".to_vec())
        ]
    );
    remove_ref(&mut refs, b"refs/heads/x");
    assert_eq!(refs.len(), 2);
}

#[test]
fn a_clone_writes_the_references_it_was_told_of() {
    let mut repo = init_repository(b"repo").unwrap();
    let a = b"74730d410fcb6603ace96f1dc55ea6196122532d".to_vec();
    let b = b"7d1665144a3a975c05f1f43902ddaf084e784dbe".to_vec();
    let references = vec![
        (b.clone(), b"HEAD".to_vec()),
        (a.clone(), b"refs/heads/master".to_vec()),
        (b.clone(), b"refs/heads/rama".to_vec()),
        (a.clone(), b"refs/tags/v1".to_vec()),
    ];
    assert_eq!(write_reference_from_cloning(&references, &mut repo), Ok(()));
    assert_eq!(get_head(&repo), Ok(b"refs/heads/rama".to_vec()));
    assert_eq!(get_commit(b"master", &repo), Ok(a.clone()));
    assert_eq!(get_commit(b"rama", &repo), Ok(b));
    assert_eq!(get_tags(&repo), Ok(words(&[b"v1"])));
    assert_eq!(
        write_reference_from_cloning(&Vec::new(), &mut repo),
        Err(GitrError::InvalidArgumentError)
    );
}

#[test]
fn paths_and_names_are_put_together() {
    assert_eq!(armar_path(b"gitrignore", b"cliente/repo"), Ok(b"cliente/repo/gitrignore".to_vec()));
    assert_eq!(get_current_username(b"ana".to_vec()), b"ana".to_vec());
}

#[test]
fn a_line_of_input_is_split_into_words() {
    assert_eq!(
        parse_input(b"  commit -m \t\"mensaje\"\n"),
        words(&[b"commit", b"-m", b"\"mensaje\""])
    );
    assert_eq!(parse_input(b"status"), words(&[b"status"]));
    assert!(parse_input(b" \t\r\n").is_empty());
    assert!(parse_input(b"").is_empty());
}

#[test]
fn commands_are_known_by_name_and_short_name() {
    assert_eq!(command_of(b"hash-object"), Some(Command::HashObject));
    assert_eq!(command_of(b"h"), Some(Command::HashObject));
    assert_eq!(command_of(b"c"), Some(Command::CatFile));
    assert_eq!(command_of(b"merge"), Some(Command::Merge));
    assert_eq!(command_of(b"ls-tree"), Some(Command::LsTree));
    assert_eq!(command_of(b"lr"), Some(Command::ListRepos));
    assert_eq!(command_of(b"gtr"), Some(Command::GoToRepo));
    assert_eq!(command_of(b"cr"), Some(Command::CurrentRepo));
    assert_eq!(command_of(b"q"), Some(Command::Quit));
    assert_eq!(command_of(b"l"), Some(Command::ShowLog));
    assert_eq!(command_of(b"comit"), None);
    assert_eq!(command_of(b""), None);
}

#[test]
fn the_shell_remembers_a_conflict_until_the_commit() {
    let id = b"7d1665144a3a975c05f1f43902ddaf084e784dbe".to_vec();
    assert_eq!(next_state(Command::Merge, false, Vec::new(), id.clone()), (true, id.clone()));
    assert_eq!(next_state(Command::Add, true, id.clone(), Vec::new()), (true, id.clone()));
    assert_eq!(next_state(Command::Commit, true, id.clone(), Vec::new()), (false, Vec::new()));
    assert_eq!(next_state(Command::Status, true, id.clone(), Vec::new()), (false, Vec::new()));
    assert_eq!(second_parent(true, id.clone()), id.clone());
    assert_eq!(second_parent(false, id), b"None".to_vec());
}

#[test]
fn the_entries_of_a_tree_are_shown_one_to_a_line() {
    let raw = b"100644 a.txt\x0074730d410fcb6603ace96f1dc55ea6196122532d\n40000 dir\x007d1665144a3a975c05f1f43902ddaf084e784dbe";
    assert_eq!(
        get_tree_data(raw),
        Ok(b"100644 blob 74730d410fcb6603ace96f1dc55ea6196122532d a.txt\n40000 tree 7d1665144a3a975c05f1f43902ddaf084e784dbe dir\n".to_vec())
    );
    assert_eq!(get_tree_data(b""), Ok(Vec::new()));
    assert_eq!(get_tree_data(b"sinespacio"), Err(GitrError::FileReadError));
    assert_eq!(get_tree_data(b"100644 sin-nul"), Err(GitrError::FileReadError));
}

#[test]
fn cat_file_gives_kind_size_and_content() {
    let mut repo = init_repository(b"repo").unwrap();
    let blob = Blob::new(b"hello world\n".to_vec()).unwrap();
    blob.save(&mut repo.objects).unwrap();
    let id = blob.get_hash();
    assert_eq!(id, b"3b18e512dba79e4c8300dd08aeb37f8e728b8dad".to_vec());
    assert_eq!(_cat_file(&vec![b"-t".to_vec(), id.clone()], &repo.objects), Ok(b"blob".to_vec()));
    assert_eq!(_cat_file(&vec![b"-s".to_vec(), id.clone()], &repo.objects), Ok(b"12".to_vec()));
    assert_eq!(
        _cat_file(&vec![b"-p".to_vec(), id.clone()], &repo.objects),
        Ok(b"hello world\n".to_vec())
    );
    assert_eq!(
        _cat_file(&vec![b"-x".to_vec(), id.clone()], &repo.objects),
        Ok(b"Invalid option. Expected <[-t/-s/-p>".to_vec())
    );
    assert_eq!(
        _cat_file(&vec![b"-p".to_vec()], &repo.objects),
        Err(GitrError::InvalidArgumentError)
    );
    assert_eq!(
        _cat_file(
            &vec![b"-p".to_vec(), b"74730d410fcb6603ace96f1dc55ea6196122532d".to_vec()],
            &repo.objects
        ),
        Err(GitrError::ObjectNotFound)
    );
    let (hash, output, size, kind) =
        get_object_properties(&vec![b"-p".to_vec(), id.clone()], &repo.objects).unwrap();
    assert_eq!(hash, id);
    assert_eq!(output, b"blob 12\0hello world\n".to_vec());
    assert_eq!(size, b"12".to_vec());
    assert_eq!(kind, b"blob".to_vec());

    let tree = tree_of(&mut repo, &[(b"a.txt", b"hello world\n")]);
    assert_eq!(_cat_file(&vec![b"-t".to_vec(), tree.clone()], &repo.objects), Ok(b"tree".to_vec()));
    assert_eq!(
        _cat_file(&vec![b"-p".to_vec(), tree], &repo.objects),
        Ok(b"100644 blob 3b18e512dba79e4c8300dd08aeb37f8e728b8dad a.txt\n".to_vec())
    );
}

#[test]
fn a_request_that_was_made_is_taken_in() {
    let (host, message) = handshake(b"git-upload-pack", b"localhost:9418/repo").unwrap();
    assert_eq!(host, b"localhost:9418".to_vec());
    assert_eq!(message, b"002egit-upload-pack /repo\0host=localhost:9418\0".to_vec());
    assert_eq!(
        handle_pkt_line(&message),
        Ok((b"git-upload-pack".to_vec(), b"server9418/repos/repo".to_vec()))
    );
    assert_eq!(handshake(b"git-upload-pack", b"sin-barra"), Err(GitrError::InvalidArgumentError));
    assert_eq!(handle_pkt_line(b"0005x"), Err(GitrError::ConnectionError));
    assert_eq!(handle_pkt_line(b"zzzz"), Err(GitrError::ConnectionError));
}

#[test]
fn a_line_of_input_names_a_command_and_its_flags() {
    assert_eq!(
        command_handler(&words(&[b"commit", b"-m", b"mensaje"])),
        Ok(Some((Command::Commit, words(&[b"-m", b"mensaje"]))))
    );
    assert_eq!(command_handler(&words(&[b"status"])), Ok(Some((Command::Status, Vec::new()))));
    assert_eq!(command_handler(&Vec::new()), Ok(None));
    assert_eq!(command_handler(&words(&[b"comit", b"x"])), Err(GitrError::InvalidArgumentError));
}
