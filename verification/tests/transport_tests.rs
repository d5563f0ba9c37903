use gitr::file_manager::ObjectStore;
use gitr::git_transport::pack_file::read_pack_file;
use gitr::git_transport::ref_discovery::{
    analizar_ref, assemble_want_message, check_push, discover_references, extract_hash_and_ref,
    extract_head_hash, push_flush, push_pkt_line, ref_discovery, reference_update_request,
};
use gitr::gitr_errors::GitrError;
use gitr::objects::blob::{Blob, TreeEntry};
use gitr::objects::commit::Commit;
use gitr::objects::tree::Tree;
use gitr::server::server_utils::{
    get_changes, gitr_receive_pack, gitr_upload_pack, is_valid_pkt_line, packfile_negotiation,
    pkt_needed, rcv_packfile_bruno, snd_packfile, split_n_validate_elems, update_contents,
    update_refs, wants_n_haves, write_ref,
};

const A: &[u8] = b"74730d410fcb6603ace96f1dc55ea6196122532d";
const B: &[u8] = b"7d1665144a3a975c05f1f43902ddaf084e784dbe";
const C: &[u8] = b"5a3f6be755bbb7deae50065988cbfa1ffa9ab68a";
const NUL: &[u8] = b"0000000000000000000000000000000000000000";
const WHO: &[u8] = b"cliente <test@mail> 1702329287 -0300";

fn pair(id: &[u8], name: &[u8]) -> (Vec<u8>, Vec<u8>) {
    (id.to_vec(), name.to_vec())
}

fn text(bytes: &[u8]) -> String {
    String::from_utf8(bytes.to_vec()).unwrap()
}

#[test]
fn pkt_lines_count_their_own_length() {
    let mut out = Vec::new();
    push_pkt_line(&mut out, b"hola:)");
    assert_eq!(out, b"000ahola:)".to_vec());
    push_flush(&mut out);
    assert_eq!(out, b"000ahola:)0000".to_vec());
    let mut long = Vec::new();
    push_pkt_line(&mut long, &vec![b'x'; 0x1234 - 4]);
    assert_eq!(&long[..4], b"1234");
    assert!(is_valid_pkt_line(&long).is_ok());
}

#[test]
fn pkt_line_lengths_may_be_in_either_case() {
    assert!(is_valid_pkt_line(b"000Ahola:)").is_ok());
    assert!(is_valid_pkt_line(b"000bhola:)").is_err());
    assert!(is_valid_pkt_line(b"0000\n").is_ok());
    assert!(is_valid_pkt_line(b"0000\n\n").is_err());
    assert!(is_valid_pkt_line(b"+00ahola:)").is_err());
    assert_eq!(is_valid_pkt_line(b"hola"), Err(GitrError::ConnectionError));
}

#[test]
fn requests_that_are_no_handshake_are_refused() {
    let receive = split_n_validate_elems(b"0034git-receive-pack /repo\0host=localhost:9418\0");
    assert_eq!(
        receive.unwrap(),
        vec![b"git-receive-pack".to_vec(), b"repo".to_vec(), b"localhost:9418".to_vec()]
    );
    for bad in [
        &b"0033git-upload-pack"[..],
        b"0033git-download-pack /project.git\0host=myserver.com\0",
        b"0033git-upload-pack /project.git\0host=myserver.com",
        b"0033git-upload-pack /project.git extra\0host=myserver.com\0",
        b"00",
    ] {
        assert_eq!(split_n_validate_elems(bad), Err(GitrError::ConnectionError));
    }
}

#[test]
fn advertisement_has_a_line_for_head_and_one_for_each_reference() {
    let refs = vec![pair(A, b"refs/heads/master"), pair(B, b"refs/tags/v1")];
    let (bytes, ids) = ref_discovery(&refs, b"refs/heads/master").unwrap();
    let expected = format!(
        "0032{} HEAD\n003f{} refs/heads/master\n003a{} refs/tags/v1\n0000",
        text(A),
        text(A),
        text(B)
    );
    assert_eq!(text(&bytes), expected);
    assert_eq!(ids, vec![A.to_vec(), A.to_vec(), B.to_vec()]);
}

#[test]
fn advertisement_of_an_empty_repository_is_a_flush() {
    let (bytes, ids) = ref_discovery(&Vec::new(), b"refs/heads/master").unwrap();
    assert_eq!(bytes, b"0000".to_vec());
    assert!(ids.is_empty());
    assert!(discover_references(&bytes).unwrap().is_empty());
    assert!(discover_references(b"").unwrap().is_empty());
}

#[test]
fn references_that_do_not_fit_in_a_line_are_refused() {
    let refs = vec![(A.to_vec(), vec![b'n'; 70000])];
    assert_eq!(ref_discovery(&refs, b"x").err(), Some(GitrError::InvalidArgumentError));
}

#[test]
fn discovery_reads_back_what_was_advertised() {
    let refs = vec![
        pair(A, b"refs/heads/master"),
        pair(B, b"refs/heads/debug"),
        pair(C, b"refs/tags/v1"),
    ];
    let (bytes, _) = ref_discovery(&refs, b"refs/heads/debug").unwrap();
    let found = discover_references(&bytes).unwrap();
    let mut expected = vec![pair(B, b"HEAD")];
    expected.extend(refs);
    assert_eq!(found, expected);
}

#[test]
fn lines_of_an_advertisement_are_taken_apart() {
    let line = b"003f74730d410fcb6603ace96f1dc55ea6196122532d refs/heads/master";
    assert_eq!(extract_head_hash(line), A.to_vec());
    assert_eq!(extract_hash_and_ref(line), pair(A, b"refs/heads/master"));
    assert_eq!(extract_head_hash(b"00"), Vec::<u8>::new());
    assert_eq!(extract_hash_and_ref(b"0008hola"), pair(b"hola", b""));
}

#[test]
fn an_empty_repository_wants_every_advertised_id() {
    let refs = vec![pair(A, b"refs/heads/master"), pair(B, b"refs/tags/v1")];
    let (bytes, ids) = ref_discovery(&refs, b"refs/heads/master").unwrap();
    let found = discover_references(&bytes).unwrap();
    let message = assemble_want_message(&found, Vec::new(), &Vec::new()).unwrap();
    let expected = format!(
        "0032want {}\n0032want {}\n0032want {}\n000000000009done\n",
        text(A),
        text(A),
        text(B)
    );
    assert_eq!(text(&message), expected);
    let (wants, haves) = wants_n_haves(&message, Vec::new(), Vec::new()).unwrap();
    assert_eq!(wants, ids);
    assert!(haves.is_empty());
}

#[test]
fn a_repository_that_has_everything_sends_a_flush_alone() {
    let refs = vec![pair(A, b"HEAD"), pair(A, b"refs/heads/master")];
    let message = assemble_want_message(&refs, vec![A.to_vec()], &vec![A.to_vec(), B.to_vec()]);
    assert_eq!(message.unwrap(), b"0000".to_vec());
}

#[test]
fn wants_are_followed_by_what_the_client_has() {
    let refs = vec![pair(A, b"HEAD"), pair(A, b"refs/heads/master"), pair(B, b"refs/heads/x")];
    let message =
        assemble_want_message(&refs, vec![A.to_vec()], &vec![A.to_vec(), C.to_vec()]).unwrap();
    let expected = format!(
        "0032want {}\n00000032have {}\n0032have {}\n00000009done\n",
        text(B),
        text(A),
        text(C)
    );
    assert_eq!(text(&message), expected);
    let (wants, haves) = wants_n_haves(&message, Vec::new(), Vec::new()).unwrap();
    assert_eq!(wants, vec![B.to_vec()]);
    assert_eq!(haves, vec![A.to_vec(), C.to_vec()]);
}

#[test]
fn negotiation_lines_that_make_no_sense_are_refused() {
    for bad in [
        &b"0009hola\n"[..],
        b"0032want",
        b"0009want\n",
        b"0000\n0009hola\n",
        b"want x\n",
        b"0009done\n",
        b"0000\n0032want 74730d410fcb6603ace96f1dc55ea6196122532d\n",
    ] {
        assert_eq!(
            wants_n_haves(bad, Vec::new(), Vec::new()).err(),
            Some(GitrError::ConnectionError)
        );
    }
    let kept = wants_n_haves(b"0000\n0000\n", vec![A.to_vec()], vec![B.to_vec()]).unwrap();
    assert_eq!(kept, (vec![A.to_vec()], vec![B.to_vec()]));
}

#[test]
fn an_unknown_want_ends_the_negotiation() {
    let request = format!("0032want {}\n00000009done\n", text(C));
    let known = vec![A.to_vec(), B.to_vec()];
    assert_eq!(
        packfile_negotiation(request.as_bytes(), &known).err(),
        Some(GitrError::UnknownWant)
    );
}

#[test]
fn negotiation_answers_with_ack_or_nak() {
    let known = vec![A.to_vec(), B.to_vec()];
    let none = format!("0032want {}\n00000009done\n", text(A));
    let (wants, haves, reply) = packfile_negotiation(none.as_bytes(), &known).unwrap();
    assert_eq!((wants, haves), (vec![A.to_vec()], Vec::new()));
    assert_eq!(reply, b"0008NAK\n".to_vec());
    let some = format!(
        "0032want {}\n0000\n0032have {}\n0032have {}\n0000\n0009done\n",
        text(A),
        text(C),
        text(B)
    );
    let (_, haves, reply) = packfile_negotiation(some.as_bytes(), &known).unwrap();
    assert_eq!(haves, vec![C.to_vec(), B.to_vec()]);
    assert_eq!(text(&reply), format!("0031ACK {}\n", text(B)));
    let nothing = packfile_negotiation(b"0000", &known).unwrap();
    assert_eq!(nothing, (Vec::new(), Vec::new(), Vec::new()));
}

#[test]
fn push_request_names_what_changed() {
    let server = vec![pair(A, b"HEAD"), pair(A, b"refs/heads/master"), pair(C, b"refs/tags/v1")];
    let ids = (vec![B.to_vec(), C.to_vec()], vec![C.to_vec()]);
    let names = (vec![b"master".to_vec(), b"nueva".to_vec()], vec![b"v1".to_vec()]);
    let (request, needed, pkt_ids) = reference_update_request(server, ids, names).unwrap();
    let expected = format!(
        "0068{} {} refs/heads/master\n0067{} {} refs/heads/nueva\n0000",
        text(A),
        text(B),
        text(NUL),
        text(C)
    );
    assert_eq!(text(&request), expected);
    assert!(needed);
    assert_eq!(pkt_ids, vec![B.to_vec()]);
    let (old, new, changed) = get_changes(&request).unwrap();
    assert_eq!(old, vec![A.to_vec(), NUL.to_vec()]);
    assert_eq!(new, vec![B.to_vec(), C.to_vec()]);
    assert_eq!(changed, vec![b"refs/heads/master".to_vec(), b"refs/heads/nueva".to_vec()]);
}

#[test]
fn push_request_of_what_is_up_to_date_is_a_flush() {
    let server = vec![pair(A, b"HEAD"), pair(A, b"refs/heads/master")];
    let ids = (vec![A.to_vec()], Vec::new());
    let names = (vec![b"master".to_vec()], Vec::new());
    let (request, needed, pkt_ids) = reference_update_request(server, ids, names).unwrap();
    assert_eq!(request, b"0000".to_vec());
    assert!(!needed);
    assert!(pkt_ids.is_empty());
}

#[test]
fn push_request_needs_ids_and_names_to_pair_up() {
    let ids = (vec![A.to_vec()], Vec::new());
    let names = (Vec::new(), Vec::new());
    assert_eq!(
        reference_update_request(Vec::new(), ids, names).err(),
        Some(GitrError::InvalidArgumentError)
    );
}

#[test]
fn one_reference_is_looked_at() {
    let server = vec![pair(A, b"refs/heads/master"), pair(B, b"refs/heads/otra")];
    let mut request = Vec::new();
    let mut ids = Vec::new();
    analizar_ref(&server, (b"master", B), &mut ids, &mut request, b"heads").unwrap();
    assert_eq!(text(&request), format!("0068{} {} refs/heads/master\n", text(A), text(B)));
    assert_eq!(ids, vec![B.to_vec()]);
    analizar_ref(&server, (b"v1", B), &mut ids, &mut request, b"tags").unwrap();
    assert!(text(&request).ends_with(&format!("0063{} {} refs/tags/v1\n", text(NUL), text(B))));
    assert_eq!(ids.len(), 1);
    let before = request.clone();
    analizar_ref(&server, (b"otra", B), &mut ids, &mut request, b"heads").unwrap();
    assert_eq!(request, before);
}

#[test]
fn changes_that_are_no_triples_are_refused() {
    assert_eq!(get_changes(b"0009hola\n").err(), Some(GitrError::ConnectionError));
    assert_eq!(get_changes(b"hola").err(), Some(GitrError::ConnectionError));
    assert_eq!(get_changes(b"0000").unwrap(), (Vec::new(), Vec::new(), Vec::new()));
}

#[test]
fn a_pack_is_needed_where_an_id_is_new() {
    let nul = NUL.to_vec();
    assert!(pkt_needed(&vec![nul.clone(), nul.clone()], &vec![A.to_vec(), C.to_vec()]));
    assert!(pkt_needed(&vec![A.to_vec(), C.to_vec()], &vec![B.to_vec(), A.to_vec()]));
    assert!(!pkt_needed(&vec![B.to_vec(), A.to_vec()], &vec![nul.clone(), nul.clone()]));
    assert!(!pkt_needed(&vec![A.to_vec()], &vec![A.to_vec()]));
    assert!(!pkt_needed(&Vec::new(), &Vec::new()));
}

#[test]
fn references_are_created_changed_and_deleted() {
    let mut refs = Vec::new();
    let names = vec![b"refs/heads/debug".to_vec(), b"refs/heads/master".to_vec()];
    let nul = NUL.to_vec();
    update_refs(
        vec![nul.clone(), nul.clone()],
        vec![A.to_vec(), C.to_vec()],
        names.clone(),
        &mut refs,
    )
    .unwrap();
    assert_eq!(refs, vec![pair(A, b"refs/heads/debug"), pair(C, b"refs/heads/master")]);
    update_refs(
        vec![A.to_vec(), C.to_vec()],
        vec![B.to_vec(), A.to_vec()],
        names.clone(),
        &mut refs,
    )
    .unwrap();
    assert_eq!(refs, vec![pair(B, b"refs/heads/debug"), pair(A, b"refs/heads/master")]);
    update_refs(vec![B.to_vec(), A.to_vec()], vec![nul.clone(), nul], names, &mut refs).unwrap();
    assert!(refs.is_empty());
}

#[test]
fn a_push_that_comes_too_late_is_stale() {
    let mut refs = vec![pair(A, b"refs/heads/master")];
    let name = vec![b"refs/heads/master".to_vec()];
    update_refs(vec![A.to_vec()], vec![B.to_vec()], name.clone(), &mut refs).unwrap();
    assert_eq!(refs, vec![pair(B, b"refs/heads/master")]);
    let late = update_refs(vec![A.to_vec()], vec![C.to_vec()], name.clone(), &mut refs);
    assert_eq!(late, Err(GitrError::StaleReference));
    assert_eq!(refs, vec![pair(B, b"refs/heads/master")]);
    let absent = update_refs(vec![A.to_vec()], vec![C.to_vec()], vec![b"x".to_vec()], &mut refs);
    assert_eq!(absent, Err(GitrError::StaleReference));
}

#[test]
fn a_stale_update_undoes_the_whole_push() {
    let mut refs = vec![pair(A, b"refs/heads/master"), pair(B, b"refs/heads/debug")];
    let before = refs.clone();
    let result = update_refs(
        vec![NUL.to_vec(), A.to_vec(), A.to_vec()],
        vec![C.to_vec(), C.to_vec(), C.to_vec()],
        vec![
            b"refs/heads/nueva".to_vec(),
            b"refs/heads/master".to_vec(),
            b"refs/heads/debug".to_vec(),
        ],
        &mut refs,
    );
    assert_eq!(result, Err(GitrError::StaleReference));
    assert_eq!(refs, before);
    let uneven = update_refs(vec![A.to_vec()], Vec::new(), vec![b"x".to_vec()], &mut refs);
    assert_eq!(uneven, Err(GitrError::InvalidArgumentError));
}

#[test]
fn a_reference_is_written_in_its_place() {
    let mut refs = vec![pair(A, b"uno"), pair(B, b"dos")];
    write_ref(&mut refs, b"uno", C);
    write_ref(&mut refs, b"tres", A);
    assert_eq!(refs, vec![pair(C, b"uno"), pair(B, b"dos"), pair(A, b"tres")]);
}

fn repository() -> (ObjectStore, Vec<u8>, Vec<u8>) {
    let mut store = ObjectStore::new();
    let blob = Blob::new(b"contenido".to_vec()).unwrap();
    blob.save(&mut store).unwrap();
    let tree = Tree::new(vec![(b"a.txt".to_vec(), TreeEntry::Blob(blob))]).unwrap();
    tree.save(&mut store).unwrap();
    let first = Commit::new_from_packfile(
        tree.get_hash(),
        Vec::new(),
        WHO.to_vec(),
        WHO.to_vec(),
        b"uno\n".to_vec(),
    )
    .unwrap();
    first.save(&mut store).unwrap();
    let second = Commit::new_from_packfile(
        tree.get_hash(),
        vec![first.get_hash()],
        WHO.to_vec(),
        WHO.to_vec(),
        b"dos\n".to_vec(),
    )
    .unwrap();
    second.save(&mut store).unwrap();
    (store, first.get_hash(), second.get_hash())
}

#[test]
fn a_push_may_not_lose_what_the_other_side_has() {
    let (store, first, second) = repository();
    let server = vec![pair(&first, b"HEAD"), pair(&first, b"refs/heads/master")];
    let ahead = check_push(server.clone(), vec![second.clone()], vec![b"master".to_vec()], &store);
    assert_eq!(ahead, Ok(()));
    let same = check_push(server, vec![first.clone()], vec![b"master".to_vec()], &store);
    assert_eq!(same, Ok(()));
    let server_ahead = vec![pair(&second, b"refs/heads/master")];
    let behind = check_push(server_ahead.clone(), vec![first], vec![b"master".to_vec()], &store);
    assert_eq!(behind, Err(GitrError::PushError));
    let other = check_push(server_ahead, vec![second], vec![b"otra".to_vec()], &store);
    assert_eq!(other, Ok(()));
}

#[test]
fn a_fetch_is_answered_with_the_closure_packed() {
    let (store, first, second) = repository();
    let pack = snd_packfile(vec![second.clone()], vec![first.clone()], &store).unwrap();
    let objects = read_pack_file(&pack).unwrap();
    assert_eq!(objects.len(), 3);
    assert_eq!(objects[0].get_hash(), second);
    let known = vec![second.clone()];
    let request = format!("0032want {}\n00000009done\n", text(&second));
    let (reply, packed) = gitr_upload_pack(request.as_bytes(), &known, &store).unwrap();
    assert_eq!(reply, b"0008NAK\n".to_vec());
    assert_eq!(read_pack_file(&packed.unwrap()).unwrap().len(), 4);
    let (reply, packed) = gitr_upload_pack(b"0000", &known, &store).unwrap();
    assert!(reply.is_empty());
    assert!(packed.is_none());
}

#[test]
fn a_push_is_taken_in_whole_or_not_at_all() {
    let (client, first, second) = repository();
    let mut server = ObjectStore::new();
    let mut refs = Vec::new();
    let pack = snd_packfile(vec![second.clone()], Vec::new(), &client).unwrap();
    let create = format!("0068{} {} refs/heads/master\n0000", text(NUL), text(&second));
    gitr_receive_pack(create.as_bytes(), &pack, &mut server, &mut refs).unwrap();
    assert_eq!(refs, vec![pair(&second, b"refs/heads/master")]);
    assert_eq!(server.objects.len(), 4);
    assert_eq!(
        server.get(&first).unwrap().get_canonical(),
        client.get(&first).unwrap().get_canonical()
    );
    let stale = format!("0068{} {} refs/heads/master\n0000", text(&first), text(&second));
    let mut other = ObjectStore::new();
    let result = gitr_receive_pack(stale.as_bytes(), &pack, &mut other, &mut refs);
    assert_eq!(result, Err(GitrError::StaleReference));
    assert!(other.objects.is_empty());
    assert_eq!(refs, vec![pair(&second, b"refs/heads/master")]);
    let broken = gitr_receive_pack(create.as_bytes(), b"PACK", &mut other, &mut Vec::new());
    assert_eq!(broken, Err(GitrError::TruncatedPack));
    let delete = format!("0068{} {} refs/heads/master\n0000", text(&second), text(NUL));
    gitr_receive_pack(delete.as_bytes(), b"", &mut server, &mut refs).unwrap();
    assert!(refs.is_empty());
}

#[test]
fn received_packs_become_ids_and_stored_forms() {
    let (client, _, second) = repository();
    let pack = snd_packfile(vec![second.clone()], Vec::new(), &client).unwrap();
    let (ids, contents) = rcv_packfile_bruno(&pack).unwrap();
    assert_eq!(ids.len(), 4);
    assert_eq!(ids[0], second);
    let mut store = ObjectStore::new();
    update_contents(ids.clone(), contents.clone(), &mut store).unwrap();
    assert_eq!(store.get(&second).unwrap().get_hash(), second);
    assert_eq!(store.objects[0].data, client.objects.iter().find(|o| o.id == second).unwrap().data);
    let uneven = update_contents(ids, Vec::new(), &mut store);
    assert_eq!(uneven, Err(GitrError::InvalidArgumentError));
    assert_eq!(rcv_packfile_bruno(b"no es un pack ni de lejos, solo texto").err(), Some(GitrError::BadMagic));
}
