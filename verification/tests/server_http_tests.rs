use gitr::commands::rebase::{create_rebase_commit, rebase_plan, RebasePlan};
use gitr::file_manager::{get_current_commit, init_repository, load_commit, ref_changes};
use gitr::gitr_errors::GitrError;
use gitr::logger::{log_action, log_error, log_file_operation, write_entry, EntryType};
use gitr::git_transport::pack_file::pack_start;
use gitr::server::http::{
    answer, email_valido, merge_answer, merge_refused, pull_answer, pull_done, pull_id,
    pull_route, request_kind, request_route, response_list, served_root, status_known, trim,
    trim_start, RequestKind,
};

fn names(list: &[&[u8]]) -> Vec<Vec<u8>> {
    list.iter().map(|w| w.to_vec()).collect()
}

#[test]
fn requests_are_told_apart_by_their_start() {
    assert_eq!(request_kind(b"GET /repos/r/pulls HTTP/1.1\r\n"), RequestKind::Get);
    assert_eq!(request_kind(b"POST /repos/r/pulls HTTP/1.1\r\n"), RequestKind::Post);
    assert_eq!(request_kind(b"PUT /repos/r/pulls/1/merge HTTP/1.1\r\n"), RequestKind::Put);
    assert_eq!(request_kind(b"PATCH /repos/r/pulls/1 HTTP/1.1\r\n"), RequestKind::Patch);
    assert_eq!(request_kind(b"002egit-upload-pack /repo\0host=h\0"), RequestKind::PktLine);
    assert_eq!(request_kind(b"GE"), RequestKind::PktLine);
    assert_eq!(request_kind(b""), RequestKind::PktLine);
}

#[test]
fn the_route_is_the_second_word_of_a_request() {
    assert_eq!(
        request_route(b"GET /repos/r/pulls HTTP/1.1\r\nHost: localhost:9418\r\n"),
        Ok(b"/repos/r/pulls".to_vec())
    );
    assert_eq!(request_route(b"GET"), Err(GitrError::ConnectionError));
    assert_eq!(trim_start(b" \t\n x y "), b"x y ".to_vec());
    assert_eq!(trim_start(b"   "), Vec::<u8>::new());
    assert_eq!(trim_start(b"abc"), b"abc".to_vec());
}

#[test]
fn a_list_is_written_between_brackets() {
    assert_eq!(response_list(&names(&[b"{\"id\":1}", b"{\"id\":2}"])), b"[{\"id\":1},{\"id\":2}]".to_vec());
    assert_eq!(response_list(&names(&[b"7"])), b"[7]".to_vec());
    assert_eq!(response_list(&Vec::new()), b"]".to_vec());
    assert_eq!(answer(b"422 Validation failed"), b"HTTP/1.1 422 Validation failed\r\n\r\n".to_vec());
}

#[test]
fn entries_of_the_log_name_kind_time_and_message() {
    assert_eq!(
        log_error(b"fallo", b"11-12-2023 18:14:47"),
        b"{\"type\": \"Error\",\"timestamp\": \"11-12-2023 18:14:47\",\"message\": \"fallo\"}".to_vec()
    );
    assert_eq!(
        log_action(b"calling add", b"t"),
        b"{\"type\": \"Action\",\"timestamp\": \"t\",\"message\": \"calling add\"}".to_vec()
    );
    assert_eq!(
        log_file_operation(b"", b""),
        b"{\"type\": \"FileOperation\",\"timestamp\": \"\",\"message\": \"\"}".to_vec()
    );
    assert_eq!(write_entry(EntryType::Error, b"t", b"m"), log_error(b"m", b"t"));
}

#[test]
fn a_rebase_replays_what_came_after_the_shared_commit() {
    let origin = names(&[b"o2", b"o1", b"base"]);
    let branch = names(&[b"b2", b"b1", b"base"]);
    match rebase_plan(&branch, &origin) {
        RebasePlan::Replay { base, commits } => {
            assert_eq!(base, b"base".to_vec());
            assert_eq!(commits, names(&[b"b2", b"b1"]));
        }
        other => panic!("{:?}", other),
    }
    assert!(matches!(
        rebase_plan(&names(&[b"b1", b"o2", b"o1"]), &origin),
        RebasePlan::Nothing
    ));
    assert!(matches!(rebase_plan(&names(&[b"x"]), &origin), RebasePlan::Nothing));
    assert!(matches!(rebase_plan(&Vec::new(), &origin), RebasePlan::Nothing));
}

#[test]
fn a_commit_of_a_rebase_stands_on_the_commit_before_it() {
    let mut repo = init_repository(b"repo").unwrap();
    let tree = b"4b825dc642cb6eb9a060e54bf8d69288fbee4904".to_vec();
    let last = b"74730d410fcb6603ace96f1dc55ea6196122532d".to_vec();
    let id = create_rebase_commit(tree.clone(), last.clone(), b"de nuevo", b"ana", b"a@m", 3, &mut repo)
        .unwrap();
    assert_eq!(get_current_commit(&repo), Ok(id.clone()));
    let commit = load_commit(&id, &repo.objects).unwrap();
    assert_eq!(commit.get_parent_ids(), vec![last.clone()]);
    assert_eq!(commit.get_tree(), tree);
    assert_eq!(commit.get_message(), b"de nuevo\n".to_vec());
    assert_eq!(
        create_rebase_commit(b"mal".to_vec(), last, b"x", b"ana", b"a@m", 3, &mut repo),
        Err(GitrError::MalformedObject)
    );
    assert_eq!(get_current_commit(&repo), Ok(id));
}

#[test]
fn a_mail_address_has_one_at_and_a_dot_after_it() {
    assert!(email_valido(b"ana@mail.com"));
    assert!(email_valido(b"@."));
    assert!(!email_valido(b"ana.perez@mail"));
    assert!(!email_valido(b"ana@@mail.com"));
    assert!(!email_valido(b"ana@mail.com@x"));
    assert!(!email_valido(b"sin-arroba.com"));
    assert!(!email_valido(b""));
}

#[test]
fn requests_on_pull_requests_are_refused_with_the_status_of_each_case() {
    assert_eq!(
        pull_answer(RequestKind::Get, false, true, true),
        Some(b"HTTP/1.1 404 Resource not found\r\n\r\n".to_vec())
    );
    assert_eq!(pull_answer(RequestKind::Get, true, false, false), None);
    assert_eq!(
        pull_answer(RequestKind::Post, true, false, true),
        Some(b"HTTP/1.1 422 Validation failed\r\n\r\n".to_vec())
    );
    assert_eq!(pull_answer(RequestKind::Post, false, true, false), None);
    assert_eq!(
        pull_answer(RequestKind::Patch, false, true, true),
        Some(b"HTTP/1.1 422 Validation failed\r\n\r\n".to_vec())
    );
    assert_eq!(pull_answer(RequestKind::Patch, true, true, false), None);
    assert_eq!(
        pull_answer(RequestKind::Put, false, true, true),
        Some(b"HTTP/1.1 404 Resource not found: can't find the requested PR.\r\n\r\n".to_vec())
    );
    assert_eq!(
        pull_answer(RequestKind::Put, true, true, false),
        Some(b"HTTP/1.1 422 Validation failed: El PR no esta abierto\r\n\r\n".to_vec())
    );
    assert_eq!(pull_answer(RequestKind::Put, true, true, true), None);
    assert_eq!(pull_done(RequestKind::Post, b"x"), b"HTTP/1.1 201 Created\r\n\r\n".to_vec());
    assert_eq!(pull_done(RequestKind::Patch, b""), b"HTTP/1.1 201 OK\r\n\r\n".to_vec());
    assert_eq!(
        pull_done(RequestKind::Get, b"[]"),
        b"HTTP/1.1 200 application/json\r\n\r\n[]".to_vec()
    );
}

#[test]
fn a_merge_of_a_pull_request_is_answered() {
    assert!(merge_refused(true, false));
    assert!(!merge_refused(true, true));
    assert!(!merge_refused(false, false));
    assert_eq!(
        merge_answer(true, false, b"a.txt,b.txt", b"abc"),
        b"HTTP/1.1 405 Method not allowed. Merge cannot be perfomed due to existing conflicts.\r\n\r\n{\"conflicting_files\":[a.txt,b.txt]}".to_vec()
    );
    assert_eq!(
        merge_answer(false, false, b"", b"74730d41"),
        b"HTTP/1.1 200 OK\r\n\r\n{\"sha\": \"74730d41\",\"merged\": true,\"message\": \"Pull Request successfully merged\"}\"".to_vec()
    );
    assert!(status_known(b"open"));
    assert!(status_known(b"closed"));
    assert!(!status_known(b"merged"));
    assert_eq!(pull_id(0), Some(0));
    assert_eq!(pull_id(255), Some(255));
    assert_eq!(pull_id(256), None);
}

#[test]
fn routes_on_pull_requests_are_read() {
    assert_eq!(
        pull_route(b"/repos/mi_repo/pulls"),
        Some((b"mi_repo".to_vec(), Vec::new(), Vec::new()))
    );
    assert_eq!(
        pull_route(b"/repos/mi_repo/pulls/3"),
        Some((b"mi_repo".to_vec(), b"3".to_vec(), Vec::new()))
    );
    assert_eq!(
        pull_route(b"/repos/mi_repo/pulls/3/commits"),
        Some((b"mi_repo".to_vec(), b"3".to_vec(), b"commits".to_vec()))
    );
    assert_eq!(pull_route(b"/repos/mi_repo"), None);
    assert_eq!(pull_route(b"repos/mi_repo/pulls"), None);
    assert_eq!(pull_route(b"/repos/mi_repo/issues/3"), None);
    assert_eq!(pull_route(b"/repos/r/pulls/1/merge/x"), None);
}

#[test]
fn the_start_of_a_pack_is_found_in_what_was_received() {
    assert_eq!(pack_start(b"0000PACK\0\0\0\x02"), 4);
    assert_eq!(pack_start(b"PACKPACK"), 0);
    assert_eq!(pack_start(b"0032want x\nPAC"), 14);
    assert_eq!(pack_start(b""), 0);
}

#[test]
fn the_directory_of_a_server_is_named_by_the_port_of_the_request() {
    assert_eq!(
        served_root(b"GET /repos/r/pulls HTTP/1.1\r\nHost: localhost:9418\r\n\r\n"),
        Some(b"server9418".to_vec())
    );
    assert_eq!(served_root(b"GET /repos/r/pulls HTTP/1.1\r\nHost: localhost\r\n\r\n"), None);
    assert_eq!(served_root(b"GET /repos/r/pulls HTTP/1.1\r\nAccept: x:y:z\r\n"), None);
    assert_eq!(served_root(b"GET /repos/r/pulls HTTP/1.1"), None);
    assert_eq!(trim(b" \t 9418 \r\n"), b"9418".to_vec());
    assert_eq!(trim(b"  "), Vec::<u8>::new());
    assert_eq!(trim(b"a b"), b"a b".to_vec());
}

#[test]
fn only_the_references_that_changed_are_written_or_removed() {
    let pair = |id: &[u8], name: &[u8]| (id.to_vec(), name.to_vec());
    let before = vec![
        pair(b"1", b"refs/heads/a"),
        pair(b"2", b"refs/heads/b"),
        pair(b"3", b"refs/tags/v1"),
    ];
    let after = vec![
        pair(b"1", b"refs/heads/a"),
        pair(b"9", b"refs/heads/b"),
        pair(b"4", b"refs/heads/c"),
    ];
    let (to_write, to_remove) = ref_changes(&before, &after);
    assert_eq!(to_write, vec![pair(b"9", b"refs/heads/b"), pair(b"4", b"refs/heads/c")]);
    assert_eq!(to_remove, vec![b"refs/tags/v1".to_vec()]);
    let (nothing, none) = ref_changes(&before, &before);
    assert!(nothing.is_empty() && none.is_empty());
    let (all, gone) = ref_changes(&Vec::new(), &after);
    assert_eq!(all, after);
    assert!(gone.is_empty());
}
