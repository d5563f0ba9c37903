use crate::commands::adding::spaces_from;
use crate::commands::handler::is_space;
use crate::gitr_errors::GitrError;
use crate::text::{
    ascii, bytes_eq, bytes_of, copy_range, find_byte, has_prefix, lacks, lemma_find_from,
    push_all, seqs, split, split_on, starts_with,
};
use vstd::prelude::*;

verus! {

/// What a request that reaches the server is, by how it starts.
#[derive(Debug, Clone, Copy, PartialEq, Eq, Structural)]
pub enum RequestKind {
    Get,
    Post,
    Put,
    Patch,
    /// Anything else: a request in pkt-line framing.
    PktLine,
}

/// What the request `request` is.
pub open spec fn kind_of_request(request: Seq<u8>) -> RequestKind {
    if has_prefix(request, ascii("GET"@)) {
        RequestKind::Get
    } else if has_prefix(request, ascii("POST"@)) {
        RequestKind::Post
    } else if has_prefix(request, ascii("PUT"@)) {
        RequestKind::Put
    } else if has_prefix(request, ascii("PATCH"@)) {
        RequestKind::Patch
    } else {
        RequestKind::PktLine
    }
}

/// Tells what a request is.
pub fn request_kind(request: &[u8]) -> (r: RequestKind)
    ensures
        r == kind_of_request(request@),
{
    proof {
        reveal_strlit("GET");
        reveal_strlit("POST");
        reveal_strlit("PUT");
        reveal_strlit("PATCH");
    }
    if starts_with(request, bytes_of("GET").as_slice()) {
        RequestKind::Get
    } else if starts_with(request, bytes_of("POST").as_slice()) {
        RequestKind::Post
    } else if starts_with(request, bytes_of("PUT").as_slice()) {
        RequestKind::Put
    } else if starts_with(request, bytes_of("PATCH").as_slice()) {
        RequestKind::Patch
    } else {
        RequestKind::PktLine
    }
}

/// `s` without the white space at its start.
pub open spec fn trimmed_start(s: Seq<u8>) -> Seq<u8> {
    s.subrange(spaces_from(s, 0), s.len() as int)
}

/// Executable `trimmed_start`.
pub fn trim_start(s: &[u8]) -> (r: Vec<u8>)
    ensures
        r@ == trimmed_start(s@),
{
    let mut i: usize = 0;
    while i < s.len() && (s[i] == 32 || (9 <= s[i] && s[i] <= 13))
        invariant
            i <= s@.len(),
            spaces_from(s@, 0) == i + spaces_from(s@, i as int),
        decreases s@.len() - i,
    {
        i = i + 1;
    }
    copy_range(s, i, s.len())
}

/// The route that a request names: what stands between its first and its
/// second space, without white space at its start. `ConnectionError` where
/// the request has no space.
pub open spec fn route_of(request: Seq<u8>) -> Result<Seq<u8>, GitrError> {
    let parts = split_on(request, 32);
    if parts.len() < 2 {
        Err(GitrError::ConnectionError)
    } else {
        Ok(trimmed_start(parts[1]))
    }
}

/// Reads the route out of a request.
pub fn request_route(request: &[u8]) -> (r: Result<Vec<u8>, GitrError>)
    ensures
        match r {
            Ok(route) => route_of(request@) == Ok::<Seq<u8>, GitrError>(route@),
            Err(e) => route_of(request@) == Err::<Seq<u8>, GitrError>(e),
        },
{
    let parts = split(request, 32u8);
    if parts.len() < 2 {
        return Err(GitrError::ConnectionError);
    }
    assert(seqs(parts@)[1] == parts@[1]@);
    Ok(trim_start(parts[1].as_slice()))
}

/// The first `n` of `items` with a comma after each.
pub open spec fn with_commas(items: Seq<Seq<u8>>, n: int) -> Seq<u8>
    decreases n,
{
    if n <= 0 {
        Seq::empty()
    } else {
        with_commas(items, n - 1) + items[n - 1] + seq![44u8]
    }
}

/// The body that lists `items`: an opening bracket, the items with a comma
/// between one and the next, and a closing bracket. For no items the
/// closing bracket alone.
pub open spec fn list_body(items: Seq<Seq<u8>>) -> Seq<u8> {
    (seq![91u8] + with_commas(items, items.len() as int)).drop_last() + seq![93u8]
}

/// Writes the body that lists `items`, each of them the text of one value.
pub fn response_list(items: &Vec<Vec<u8>>) -> (r: Vec<u8>)
    ensures
        r@ == list_body(seqs(items@)),
{
    let ghost all = seqs(items@);
    let mut body: Vec<u8> = Vec::new();
    body.push(91u8);
    let ghost start = body@;
    let mut i: usize = 0;
    assert(body@ =~= seq![91u8] + with_commas(all, 0));
    while i < items.len()
        invariant
            i <= items@.len(),
            all == seqs(items@),
            body@ == seq![91u8] + with_commas(all, i as int),
        decreases items@.len() - i,
    {
        assert(all[i as int] == items@[i as int]@);
        let ghost before = with_commas(all, i as int);
        push_all(&mut body, items[i].as_slice());
        body.push(44u8);
        assert(body@ =~= seq![91u8] + (before + all[i as int] + seq![44u8]));
        i = i + 1;
    }
    body.pop();
    body.push(93u8);
    body
}

/// The answer of the server that carries no body: the status line and an
/// empty line.
pub open spec fn status_answer(status: Seq<u8>) -> Seq<u8> {
    ascii("HTTP/1.1 "@) + status + seq![13u8, 10u8, 13u8, 10u8]
}

/// Writes an answer without a body.
pub fn answer(status: &[u8]) -> (r: Vec<u8>)
    ensures
        r@ == status_answer(status@),
{
    proof {
        reveal_strlit("HTTP/1.1 ");
    }
    let mut out = bytes_of("HTTP/1.1 ");
    push_all(&mut out, status);
    out.push(13u8);
    out.push(10u8);
    out.push(13u8);
    out.push(10u8);
    assert(out@ =~= status_answer(status@));
    out
}

/// Whether `email` looks like a mail address: it holds exactly one `@`,
/// and a dot somewhere after it.
pub open spec fn is_mail(email: Seq<u8>) -> bool {
    let parts = split_on(email, 64);
    parts.len() == 2 && !lacks(parts[1], 46)
}

/// Tells whether `email_recibido` looks like a mail address.
pub fn email_valido(email_recibido: &[u8]) -> (r: bool)
    ensures
        r == is_mail(email_recibido@),
{
    let email_parts = split(email_recibido, 64u8);
    if email_parts.len() != 2 {
        return false;
    }
    assert(seqs(email_parts@)[1] == email_parts@[1]@);
    let domain = email_parts[1].as_slice();
    let at = find_byte(domain, 46u8, 0);
    proof {
        lemma_find_from(domain@, 46, 0);
    }
    at < domain.len()
}

/// The answer that tells that a request could not be carried out.
pub open spec fn failed_answer() -> Seq<u8> {
    status_answer(ascii("422 Validation failed"@))
}

/// What is answered to a request on pull requests before anything is
/// done, where it is refused: `present` tells whether the pull request
/// that the route names is there, `valid` whether what the request brings
/// can be read and names branches that are there, `open` whether the pull
/// request is open. None where the request may go on. A request to read
/// or to merge a pull request that is not there is answered with 404; a
/// request that brings what cannot be read, a change of a pull request that
/// is not there, and a merge of one that is not open, with 422.
pub open spec fn refusal(kind: RequestKind, present: bool, valid: bool, open: bool) -> Option<
    Seq<u8>,
> {
    match kind {
        RequestKind::Get => if present {
            None
        } else {
            Some(status_answer(ascii("404 Resource not found"@)))
        },
        RequestKind::Post => if valid {
            None
        } else {
            Some(failed_answer())
        },
        RequestKind::Patch => if present && valid {
            None
        } else {
            Some(failed_answer())
        },
        RequestKind::Put => if !present {
            Some(
                status_answer(ascii("404 Resource not found: can't find the requested PR."@)),
            )
        } else if !valid {
            Some(failed_answer())
        } else if !open {
            Some(status_answer(ascii("422 Validation failed: El PR no esta abierto"@)))
        } else {
            None
        },
        RequestKind::PktLine => Some(failed_answer()),
    }
}

/// Decides whether a request on pull requests is refused, and with what
/// answer.
pub fn pull_answer(kind: RequestKind, present: bool, valid: bool, open: bool) -> (r: Option<
    Vec<u8>,
>)
    ensures
        match r {
            Some(text) => refusal(kind, present, valid, open) == Some(text@),
            None => refusal(kind, present, valid, open) is None,
        },
{
    proof {
        reveal_strlit("422 Validation failed");
        reveal_strlit("404 Resource not found");
        reveal_strlit("404 Resource not found: can't find the requested PR.");
        reveal_strlit("422 Validation failed: El PR no esta abierto");
    }
    let failed = bytes_of("422 Validation failed");
    match kind {
        RequestKind::Get => if present {
            None
        } else {
            Some(answer(bytes_of("404 Resource not found").as_slice()))
        },
        RequestKind::Post => if valid {
            None
        } else {
            Some(answer(failed.as_slice()))
        },
        RequestKind::Patch => if present && valid {
            None
        } else {
            Some(answer(failed.as_slice()))
        },
        RequestKind::Put => if !present {
            Some(
                answer(
                    bytes_of("404 Resource not found: can't find the requested PR.").as_slice(),
                ),
            )
        } else if !valid {
            Some(answer(failed.as_slice()))
        } else if !open {
            Some(answer(bytes_of("422 Validation failed: El PR no esta abierto").as_slice()))
        } else {
            None
        },
        RequestKind::PktLine => Some(answer(failed.as_slice())),
    }
}

/// What is answered once a request on pull requests was carried out: 200
/// with the body for a reading, 201 for a new pull request and for a
/// changed one.
pub open spec fn done_answer(kind: RequestKind, body: Seq<u8>) -> Seq<u8> {
    match kind {
        RequestKind::Get => status_answer(ascii("200 application/json"@)) + body,
        RequestKind::Post => status_answer(ascii("201 Created"@)),
        RequestKind::Patch => status_answer(ascii("201 OK"@)),
        _ => status_answer(ascii("200 OK"@)) + body,
    }
}

/// Writes the answer to a request on pull requests that was carried out.
pub fn pull_done(kind: RequestKind, body: &[u8]) -> (r: Vec<u8>)
    ensures
        r@ == done_answer(kind, body@),
{
    proof {
        reveal_strlit("200 application/json");
        reveal_strlit("201 Created");
        reveal_strlit("201 OK");
        reveal_strlit("200 OK");
    }
    match kind {
        RequestKind::Get => {
            let mut out = answer(bytes_of("200 application/json").as_slice());
            push_all(&mut out, body);
            out
        },
        RequestKind::Post => answer(bytes_of("201 Created").as_slice()),
        RequestKind::Patch => answer(bytes_of("201 OK").as_slice()),
        _ => {
            let mut out = answer(bytes_of("200 OK").as_slice());
            push_all(&mut out, body);
            out
        },
    }
}

/// The answer to a merge of a pull request. Where the branches are in
/// conflict and the base does not end in a merge commit, 405 with the
/// list of the files in conflict, `files` being that list as text; else
/// 200 with the id `sha` of the commit that the base ends in.
pub open spec fn merge_answer_text(conflict: bool, ends_in_merge: bool, files: Seq<u8>, sha: Seq<u8>) -> Seq<
    u8,
> {
    if conflict && !ends_in_merge {
        status_answer(
            ascii(
                "405 Method not allowed. Merge cannot be perfomed due to existing conflicts."@,
            ),
        ) + ascii("{\"conflicting_files\":["@) + files + ascii("]}"@)
    } else {
        status_answer(ascii("200 OK"@)) + ascii("{\"sha\": \""@) + sha + ascii(
            "\",\"merged\": true,\"message\": \"Pull Request successfully merged\"}\""@,
        )
    }
}

/// Whether a merge of a pull request is refused for its conflicts.
pub fn merge_refused(conflict: bool, ends_in_merge: bool) -> (r: bool)
    ensures
        r == (conflict && !ends_in_merge),
{
    conflict && !ends_in_merge
}

/// Writes the answer to a merge of a pull request.
pub fn merge_answer(conflict: bool, ends_in_merge: bool, files: &[u8], sha: &[u8]) -> (r: Vec<u8>)
    ensures
        r@ == merge_answer_text(conflict, ends_in_merge, files@, sha@),
{
    proof {
        reveal_strlit(
            "405 Method not allowed. Merge cannot be perfomed due to existing conflicts.",
        );
        reveal_strlit("{\"conflicting_files\":[");
        reveal_strlit("]}");
        reveal_strlit("200 OK");
        reveal_strlit("{\"sha\": \"");
        reveal_strlit("\",\"merged\": true,\"message\": \"Pull Request successfully merged\"}\"");
    }
    if merge_refused(conflict, ends_in_merge) {
        let mut out = answer(
            bytes_of(
                "405 Method not allowed. Merge cannot be perfomed due to existing conflicts.",
            ).as_slice(),
        );
        push_all(&mut out, bytes_of("{\"conflicting_files\":[").as_slice());
        push_all(&mut out, files);
        push_all(&mut out, bytes_of("]}").as_slice());
        out
    } else {
        let mut out = answer(bytes_of("200 OK").as_slice());
        push_all(&mut out, bytes_of("{\"sha\": \"").as_slice());
        push_all(&mut out, sha);
        push_all(
            &mut out,
            bytes_of(
                "\",\"merged\": true,\"message\": \"Pull Request successfully merged\"}\"",
            ).as_slice(),
        );
        out
    }
}

/// Whether `status` is a status that a pull request can have: `open` or
/// `closed`.
pub fn status_known(status: &[u8]) -> (r: bool)
    ensures
        r == (status@ == ascii("open"@) || status@ == ascii("closed"@)),
{
    proof {
        reveal_strlit("open");
        reveal_strlit("closed");
    }
    bytes_eq(status, bytes_of("open").as_slice()) || bytes_eq(status, bytes_of("closed").as_slice())
}

/// The pull request that a route names: the route is `repos`, the name of
/// a repository, `pulls` and, for one pull request, its number, and
/// maybe `commits` or `merge` after that, with slashes between them and
/// one before. The result gives the name of the repository, the number
/// (empty for all pull requests) and what stands after the number (empty
/// for nothing). None for any other route.
pub open spec fn route_parts(route: Seq<u8>) -> Option<(Seq<u8>, Seq<u8>, Seq<u8>)> {
    let parts = split_on(route, 47);
    if 4 <= parts.len() <= 6 && parts[0].len() == 0 && parts[1] == ascii("repos"@) && parts[3]
        == ascii("pulls"@) {
        Some(
            (
                parts[2],
                if parts.len() >= 5 {
                    parts[4]
                } else {
                    Seq::empty()
                },
                if parts.len() == 6 {
                    parts[5]
                } else {
                    Seq::empty()
                },
            ),
        )
    } else {
        None
    }
}

/// Reads a route on pull requests.
pub fn pull_route(route: &[u8]) -> (r: Option<(Vec<u8>, Vec<u8>, Vec<u8>)>)
    ensures
        match r {
            Some(p) => route_parts(route@) == Some((p.0@, p.1@, p.2@)),
            None => route_parts(route@) is None,
        },
{
    proof {
        reveal_strlit("repos");
        reveal_strlit("pulls");
    }
    let parts = split(route, 47u8);
    if parts.len() < 4 || parts.len() > 6 {
        return None;
    }
    assert(seqs(parts@)[0] == parts@[0]@);
    assert(seqs(parts@)[1] == parts@[1]@);
    assert(seqs(parts@)[2] == parts@[2]@);
    assert(seqs(parts@)[3] == parts@[3]@);
    if parts[0].len() != 0 || !bytes_eq(parts[1].as_slice(), bytes_of("repos").as_slice())
        || !bytes_eq(parts[3].as_slice(), bytes_of("pulls").as_slice()) {
        return None;
    }
    let number = if parts.len() >= 5 {
        assert(seqs(parts@)[4] == parts@[4]@);
        parts[4].clone()
    } else {
        Vec::new()
    };
    let tail = if parts.len() == 6 {
        assert(seqs(parts@)[5] == parts@[5]@);
        parts[5].clone()
    } else {
        Vec::new()
    };
    Some((parts[2].clone(), number, tail))
}

/// The number that a new pull request gets where `count` pull requests
/// are there: `count` itself, as far as it fits in a byte.
pub fn pull_id(count: usize) -> (r: Option<u8>)
    ensures
        match r {
            Some(id) => id == count,
            None => count > u8::MAX,
        },
{
    if count <= 255 {
        Some(count as u8)
    } else {
        None
    }
}

/// How many of the first `n` bytes of `s` are white space after the last
/// that is not.
pub open spec fn spaces_back(s: Seq<u8>, n: int) -> int
    decreases n,
{
    if n <= 0 || n > s.len() || !is_space(s[n - 1]) {
        0
    } else {
        1 + spaces_back(s, n - 1)
    }
}

/// `s` without the white space at its start and at its end.
pub open spec fn trimmed(s: Seq<u8>) -> Seq<u8> {
    let from = trimmed_start(s);
    from.subrange(0, from.len() - spaces_back(from, from.len() as int))
}

/// Executable `trimmed`.
pub fn trim(s: &[u8]) -> (r: Vec<u8>)
    ensures
        r@ == trimmed(s@),
{
    let from = trim_start(s);
    let mut n: usize = from.len();
    while n > 0 && (from[n - 1] == 32 || (9 <= from[n - 1] && from[n - 1] <= 13))
        invariant
            n <= from@.len(),
            spaces_back(from@, from@.len() as int) == (from@.len() - n) + spaces_back(
                from@,
                n as int,
            ),
        decreases n,
    {
        n = n - 1;
    }
    copy_range(from.as_slice(), 0, n)
}

/// The directory in which the server that a request names keeps its
/// repositories: `server` and the port that the second line of the
/// request, the line of the host, names after its second colon. None
/// where the second line is no line of the host or names no port.
pub open spec fn root_of(request: Seq<u8>) -> Option<Seq<u8>> {
    let lines = split_on(request, 10);
    if lines.len() < 2 || !has_prefix(lines[1], ascii("Host:"@)) {
        None
    } else {
        let parts = split_on(lines[1], 58);
        if parts.len() < 3 {
            None
        } else {
            Some(ascii("server"@) + trimmed(parts[2]))
        }
    }
}

/// Reads out of a request the directory in which its server keeps its
/// repositories.
pub fn served_root(request: &[u8]) -> (r: Option<Vec<u8>>)
    ensures
        match r {
            Some(root) => root_of(request@) == Some(root@),
            None => root_of(request@) is None,
        },
{
    proof {
        reveal_strlit("Host:");
        reveal_strlit("server");
    }
    let lines = split(request, 10u8);
    if lines.len() < 2 {
        return None;
    }
    assert(seqs(lines@)[1] == lines@[1]@);
    if !starts_with(lines[1].as_slice(), bytes_of("Host:").as_slice()) {
        return None;
    }
    let parts = split(lines[1].as_slice(), 58u8);
    if parts.len() < 3 {
        return None;
    }
    assert(seqs(parts@)[2] == parts@[2]@);
    let mut root = bytes_of("server");
    let port = trim(parts[2].as_slice());
    push_all(&mut root, port.as_slice());
    Some(root)
}

} // verus!
