use crate::ancestry::{closure, everything, history_nodes, walk_result};
use crate::codec::{compresses, zlib_stream};
use crate::file_manager::{stored_object, written, ObjectStore};
use crate::git_transport::pack_file::{objects_view, pack_objects, unpacked, PackFile};
use crate::git_transport::ref_discovery::{pkt_line, push_pkt_line, MAX_PKT_PAYLOAD};
use crate::gitr_errors::GitrError;
use crate::objects::git_object::{GitObject, GitObjectView};
use crate::text::{list_contains, push_all};
use crate::text::{
    ascii, bytes_eq, bytes_of, copy_range, has_prefix, hex_number, lines, lines_of, parse_hex,
    seqs, split, split_on, starts_with,
};
use vstd::prelude::*;

verus! {

/// The id that stands for "no object": forty zeros.
pub open spec fn null_id() -> Seq<u8> {
    ascii("0000000000000000000000000000000000000000"@)
}

/// The flush marker: a pkt-line of length zero.
pub open spec fn flush_pkt() -> Seq<u8> {
    ascii("0000"@)
}

/// Whether the bytes of `p` from `from` on are framed as a pkt-line: at
/// least four bytes, of which the first four are hex digits that spell the
/// length of the whole, or are a flush marker that is followed by nothing,
/// by a line feed, or by bytes that are framed as a pkt-line themselves.
pub open spec fn valid_pkt_from(p: Seq<u8>, from: int) -> bool
    decreases p.len() - from,
{
    let len = p.len() - from;
    if from < 0 || len < 4 {
        false
    } else {
        hex_number(p.subrange(from, from + 4)) == len || (p.subrange(from, from + 4)
            == flush_pkt() && (len == 4 || p.subrange(from + 4, p.len() as int) == seq![10u8]
            || valid_pkt_from(p, from + 4)))
    }
}

/// Whether `p` is framed as a pkt-line.
pub open spec fn valid_pkt(p: Seq<u8>) -> bool {
    valid_pkt_from(p, 0)
}

/// Checks that `pkt_line` is framed as a pkt-line; `ConnectionError` when it
/// is not.
pub fn is_valid_pkt_line(pkt_line: &[u8]) -> (r: Result<(), GitrError>)
    ensures
        match r {
            Ok(_) => valid_pkt(pkt_line@),
            Err(e) => !valid_pkt(pkt_line@) && e == GitrError::ConnectionError,
        },
{
    proof {
        reveal_strlit("0000");
    }
    let zeros = bytes_of("0000");
    let mut from: usize = 0;
    while pkt_line.len() - from >= 4
        invariant
            from <= pkt_line@.len(),
            zeros@ == flush_pkt(),
            valid_pkt(pkt_line@) == valid_pkt_from(pkt_line@, from as int),
        decreases pkt_line@.len() - from,
    {
        let len: usize = pkt_line.len() - from;
        let head = copy_range(pkt_line, from, from + 4);
        match parse_hex(head.as_slice()) {
            Some(n) => {
                if n == len {
                    return Ok(());
                }
            },
            None => {},
        }
        if !bytes_eq(head.as_slice(), zeros.as_slice()) {
            return Err(GitrError::ConnectionError);
        }
        if len == 4 {
            return Ok(());
        }
        if len == 5 && pkt_line[from + 4] == 10u8 {
            assert(pkt_line@.subrange(from + 4, pkt_line@.len() as int) =~= seq![10u8]);
            return Ok(());
        }
        proof {
            let rest = pkt_line@.subrange(from + 4, pkt_line@.len() as int);
            if rest == seq![10u8] {
                assert(rest.len() == 1);
                assert(rest[0] == pkt_line@[from + 4]);
            }
        }
        from = from + 4;
    }
    Err(GitrError::ConnectionError)
}

/// The three parts of a request line: the command, the name of the
/// repository, and the host. The line is a four-byte length, the command
/// (`git-upload-pack` or `git-receive-pack`), a space, the repository
/// (without a leading slash), a NUL, the host (without a leading `host=`),
/// and a NUL. `None` for any other line.
pub open spec fn request_parts(pkt_line: Seq<u8>) -> Option<Seq<Seq<u8>>> {
    if pkt_line.len() < 4 {
        None
    } else {
        let words = split_on(pkt_line.subrange(4, pkt_line.len() as int), 32);
        if words.len() != 2 {
            None
        } else {
            let fields = split_on(words[1], 0);
            if fields.len() != 3 || (words[0] != ascii("git-upload-pack"@) && words[0] != ascii(
                "git-receive-pack"@,
            )) {
                None
            } else {
                Some(
                    seq![
                        words[0],
                        without_prefix(fields[0], seq![47u8]),
                        without_prefix(fields[1], ascii("host="@)),
                    ],
                )
            }
        }
    }
}

/// `s` without `prefix` at its start, if it starts with it.
pub open spec fn without_prefix(s: Seq<u8>, prefix: Seq<u8>) -> Seq<u8> {
    if has_prefix(s, prefix) {
        s.subrange(prefix.len() as int, s.len() as int)
    } else {
        s
    }
}

/// Executable `without_prefix`.
pub fn strip_prefix(s: &[u8], prefix: &[u8]) -> (r: Vec<u8>)
    ensures
        r@ == without_prefix(s@, prefix@),
{
    if starts_with(s, prefix) {
        copy_range(s, prefix.len(), s.len())
    } else {
        let r = copy_range(s, 0, s.len());
        assert(r@ =~= s@);
        r
    }
}

/// Takes a request line apart into command, repository and host;
/// `ConnectionError` when the line is no request.
pub fn split_n_validate_elems(pkt_line: &[u8]) -> (r: Result<Vec<Vec<u8>>, GitrError>)
    ensures
        match r {
            Ok(elems) => request_parts(pkt_line@) == Some(seqs(elems@)) && elems@.len() == 3,
            Err(e) => request_parts(pkt_line@) is None && e == GitrError::ConnectionError,
        },
{
    if pkt_line.len() < 4 {
        return Err(GitrError::ConnectionError);
    }
    let line = copy_range(pkt_line, 4, pkt_line.len());
    let words = split(line.as_slice(), 32u8);
    if words.len() != 2 {
        return Err(GitrError::ConnectionError);
    }
    assert(seqs(words@)[0] == words@[0]@ && seqs(words@)[1] == words@[1]@);
    let fields = split(words[1].as_slice(), 0u8);
    proof {
        reveal_strlit("git-upload-pack");
        reveal_strlit("git-receive-pack");
        reveal_strlit("host=");
    }
    if fields.len() != 3 || (!bytes_eq(words[0].as_slice(), bytes_of("git-upload-pack").as_slice())
        && !bytes_eq(words[0].as_slice(), bytes_of("git-receive-pack").as_slice())) {
        return Err(GitrError::ConnectionError);
    }
    assert(seqs(fields@)[0] == fields@[0]@ && seqs(fields@)[1] == fields@[1]@);
    let mut elems: Vec<Vec<u8>> = Vec::new();
    elems.push(words[0].clone());
    let mut slash: Vec<u8> = Vec::new();
    slash.push(47u8);
    elems.push(strip_prefix(fields[0].as_slice(), slash.as_slice()));
    elems.push(strip_prefix(fields[1].as_slice(), bytes_of("host=").as_slice()));
    assert(seqs(elems@) =~= request_parts(pkt_line@).unwrap());
    Ok(elems)
}

/// How many flush markers stand glued to the front of a line: how often
/// `0000` can be taken from its start, from `from` on, with something left
/// after it, at most `room` times.
pub open spec fn glued_flushes(line: Seq<u8>, from: int, room: int) -> int
    decreases line.len() - from,
{
    if from < 0 || room <= 0 || line.len() - from <= 4 || line.subrange(from, from + 4)
        != flush_pkt() {
        0
    } else {
        1 + glued_flushes(line, from + 4, room - 1)
    }
}

/// What the two lists of ids are after the lines of a negotiation from line
/// `i` on were read, when `flushes` flush markers were read before. Each
/// line must be framed as a pkt-line once its line feed is put back
/// (`ConnectionError` otherwise). A line is a flush marker, or holds one of
/// the words `want`, `have` or `done` after its length, and may have flush
/// markers glued to its front. Before the first flush marker a `want` line
/// adds to the wants; after it, a `have` line adds to the haves; `done`
/// after a flush marker, or a second flush marker, ends the reading. Any
/// other line is a `ConnectionError`.
pub open spec fn negotiated(
    lines: Seq<Seq<u8>>,
    i: int,
    flushes: int,
    wants: Seq<Seq<u8>>,
    haves: Seq<Seq<u8>>,
) -> Result<(Seq<Seq<u8>>, Seq<Seq<u8>>), GitrError>
    decreases lines.len() - i,
{
    if i < 0 || i >= lines.len() {
        Ok((wants, haves))
    } else if !valid_pkt(lines[i] + seq![10u8]) || lines[i].len() < 4 {
        Err(GitrError::ConnectionError)
    } else if flushes >= 2 {
        Ok((wants, haves))
    } else {
        let glued = glued_flushes(lines[i], 0, 2 - flushes);
        let state = flushes + glued;
        let start = 4 * glued + 4;
        let words = split_on(lines[i].subrange(start, lines[i].len() as int), 32);
        let word = words[0];
        if state >= 2 {
            Ok((wants, haves))
        } else if lines[i].len() < start {
            Err(GitrError::ConnectionError)
        } else if word.len() == 0 {
            negotiated(lines, i + 1, state + 1, wants, haves)
        } else if state == 0 {
            if word == ascii("want"@) && words.len() >= 2 {
                negotiated(lines, i + 1, 0, wants.push(words[1]), haves)
            } else {
                Err(GitrError::ConnectionError)
            }
        } else {
            if word == ascii("have"@) && words.len() >= 2 {
                negotiated(lines, i + 1, 1, wants, haves.push(words[1]))
            } else if word == ascii("done"@) {
                Ok((wants, haves))
            } else {
                Err(GitrError::ConnectionError)
            }
        }
    }
}

/// A line with its line feed put back.
fn with_line_feed(line: &[u8]) -> (r: Vec<u8>)
    ensures
        r@ == line@ + seq![10u8],
{
    let mut r = copy_range(line, 0, line.len());
    r.push(10u8);
    assert(r@ =~= line@ + seq![10u8]);
    r
}

/// Executable `glued_flushes`.
fn count_glued(line: &[u8], room: usize) -> (r: usize)
    requires
        room <= 2,
    ensures
        r == glued_flushes(line@, 0, room as int),
        r <= room,
        4 * r <= line@.len(),
{
    proof {
        reveal_strlit("0000");
    }
    let zeros = bytes_of("0000");
    let mut n: usize = 0;
    while n < room && line.len() - 4 * n > 4 && bytes_eq(
        copy_range(line, 4 * n, 4 * n + 4).as_slice(),
        zeros.as_slice(),
    )
        invariant
            n <= room <= 2,
            4 * n <= line@.len(),
            zeros@ == flush_pkt(),
            glued_flushes(line@, 0, room as int) == n + glued_flushes(
                line@,
                4 * n as int,
                room - n,
            ),
        decreases room - n,
    {
        n = n + 1;
    }
    n
}

/// Reads the wants and haves of a negotiation, adding them to the lists given.
pub fn wants_n_haves(requests: &[u8], wants: Vec<Vec<u8>>, haves: Vec<Vec<u8>>) -> (r: Result<
    (Vec<Vec<u8>>, Vec<Vec<u8>>),
    GitrError,
>)
    ensures
        match r {
            Ok((w, h)) => negotiated(lines_of(requests@), 0, 0, seqs(wants@), seqs(haves@))
                == Ok::<(Seq<Seq<u8>>, Seq<Seq<u8>>), GitrError>((seqs(w@), seqs(h@))),
            Err(e) => negotiated(lines_of(requests@), 0, 0, seqs(wants@), seqs(haves@)) == Err::<
                (Seq<Seq<u8>>, Seq<Seq<u8>>),
                GitrError,
            >(e),
        },
{
    let all = lines(requests);
    let ghost ls = seqs(all@);
    let ghost w0 = seqs(wants@);
    let ghost h0 = seqs(haves@);
    let mut wanted = wants;
    let mut had = haves;
    let mut flushes: usize = 0;
    let mut i: usize = 0;
    while i < all.len()
        invariant
            i <= all@.len(),
            ls == seqs(all@),
            ls == lines_of(requests@),
            w0 == seqs(wants@),
            h0 == seqs(haves@),
            flushes <= 2,
            negotiated(ls, 0, 0, w0, h0) == negotiated(
                ls,
                i as int,
                flushes as int,
                seqs(wanted@),
                seqs(had@),
            ),
        decreases all@.len() - i,
    {
        proof {
            reveal_strlit("want");
            reveal_strlit("have");
            reveal_strlit("done");
        }
        let line = all[i].as_slice();
        assert(ls[i as int] == line@);
        let framed = with_line_feed(line);
        if is_valid_pkt_line(framed.as_slice()).is_err() || line.len() < 4 {
            return Err(GitrError::ConnectionError);
        }
        if flushes >= 2 {
            return Ok((wanted, had));
        }
        let glued = count_glued(line, 2 - flushes);
        let state: usize = flushes + glued;
        if state >= 2 {
            return Ok((wanted, had));
        }
        if line.len() - 4 * glued < 4 {
            return Err(GitrError::ConnectionError);
        }
        let rest = copy_range(line, 4 * glued + 4, line.len());
        let words = split(rest.as_slice(), 32u8);
        assert(seqs(words@)[0] == words@[0]@);
        let word = words[0].as_slice();
        let ghost wv = seqs(wanted@);
        let ghost hv = seqs(had@);
        if word.len() == 0 {
            flushes = state + 1;
        } else if state == 0 {
            if bytes_eq(word, bytes_of("want").as_slice()) && words.len() >= 2 {
                assert(seqs(words@)[1] == words@[1]@);
                wanted.push(words[1].clone());
                assert(seqs(wanted@) =~= wv.push(words@[1]@));
                flushes = 0;
            } else {
                return Err(GitrError::ConnectionError);
            }
        } else {
            if bytes_eq(word, bytes_of("have").as_slice()) && words.len() >= 2 {
                assert(seqs(words@)[1] == words@[1]@);
                had.push(words[1].clone());
                assert(seqs(had@) =~= hv.push(words@[1]@));
                flushes = 1;
            } else if bytes_eq(word, bytes_of("done").as_slice()) {
                return Ok((wanted, had));
            } else {
                return Err(GitrError::ConnectionError);
            }
        }
        i = i + 1;
    }
    Ok((wanted, had))
}

/// The reference updates that stand in the lines from line `i` on, added to
/// those given: for each line up to the flush, the old id, the new id and
/// the name. `ConnectionError` when a line is not framed as a pkt-line or
/// does not hold exactly three words.
pub open spec fn changes_from(
    lines: Seq<Seq<u8>>,
    i: int,
    old: Seq<Seq<u8>>,
    new: Seq<Seq<u8>>,
    names: Seq<Seq<u8>>,
) -> Result<(Seq<Seq<u8>>, Seq<Seq<u8>>, Seq<Seq<u8>>), GitrError>
    decreases lines.len() - i,
{
    if i < 0 || i >= lines.len() {
        Ok((old, new, names))
    } else if !valid_pkt(lines[i] + seq![10u8]) || lines[i].len() < 4 {
        Err(GitrError::ConnectionError)
    } else if lines[i] == flush_pkt() {
        Ok((old, new, names))
    } else {
        let words = split_on(lines[i].subrange(4, lines[i].len() as int), 32);
        if words.len() != 3 {
            Err(GitrError::ConnectionError)
        } else {
            changes_from(lines, i + 1, old.push(words[0]), new.push(words[1]), names.push(words[2]))
        }
    }
}

/// Reads the reference updates that a push asks for: the old ids, the new
/// ids and the names, in the order of the lines.
pub fn get_changes(buffer: &[u8]) -> (r: Result<
    (Vec<Vec<u8>>, Vec<Vec<u8>>, Vec<Vec<u8>>),
    GitrError,
>)
    ensures
        match r {
            Ok((old, new, names)) => changes_from(
                lines_of(buffer@),
                0,
                Seq::empty(),
                Seq::empty(),
                Seq::empty(),
            ) == Ok::<(Seq<Seq<u8>>, Seq<Seq<u8>>, Seq<Seq<u8>>), GitrError>(
                (seqs(old@), seqs(new@), seqs(names@)),
            ) && old@.len() == new@.len() == names@.len(),
            Err(e) => changes_from(
                lines_of(buffer@),
                0,
                Seq::empty(),
                Seq::empty(),
                Seq::empty(),
            ) == Err::<(Seq<Seq<u8>>, Seq<Seq<u8>>, Seq<Seq<u8>>), GitrError>(e),
        },
{
    let all = lines(buffer);
    let ghost ls = seqs(all@);
    let ghost e = Seq::<Seq<u8>>::empty();
    let mut old: Vec<Vec<u8>> = Vec::new();
    let mut new: Vec<Vec<u8>> = Vec::new();
    let mut names: Vec<Vec<u8>> = Vec::new();
    let mut i: usize = 0;
    proof {
        assert(seqs(old@) =~= e);
        assert(seqs(new@) =~= e);
        assert(seqs(names@) =~= e);
    }
    while i < all.len()
        invariant
            i <= all@.len(),
            ls == seqs(all@),
            ls == lines_of(buffer@),
            e == Seq::<Seq<u8>>::empty(),
            old@.len() == new@.len() == names@.len(),
            changes_from(ls, 0, e, e, e) == changes_from(
                ls,
                i as int,
                seqs(old@),
                seqs(new@),
                seqs(names@),
            ),
        decreases all@.len() - i,
    {
        let line = all[i].as_slice();
        assert(ls[i as int] == line@);
        let framed = with_line_feed(line);
        if is_valid_pkt_line(framed.as_slice()).is_err() || line.len() < 4 {
            return Err(GitrError::ConnectionError);
        }
        proof {
            reveal_strlit("0000");
        }
        if bytes_eq(line, bytes_of("0000").as_slice()) {
            return Ok((old, new, names));
        }
        let rest = copy_range(line, 4, line.len());
        let words = split(rest.as_slice(), 32u8);
        if words.len() != 3 {
            return Err(GitrError::ConnectionError);
        }
        let ghost ov = seqs(old@);
        let ghost nv = seqs(new@);
        let ghost mv = seqs(names@);
        assert(seqs(words@)[0] == words@[0]@ && seqs(words@)[1] == words@[1]@ && seqs(words@)[2]
            == words@[2]@);
        old.push(words[0].clone());
        new.push(words[1].clone());
        names.push(words[2].clone());
        proof {
            assert(seqs(old@) =~= ov.push(words@[0]@));
            assert(seqs(new@) =~= nv.push(words@[1]@));
            assert(seqs(names@) =~= mv.push(words@[2]@));
        }
        i = i + 1;
    }
    Ok((old, new, names))
}

/// Whether a push has to bring objects along: whether one of its updates
/// sets a reference to an id that is not the one it had and is not the
/// marker for "no object".
pub open spec fn needs_pack(old: Seq<Seq<u8>>, new: Seq<Seq<u8>>) -> bool {
    exists|i: int|
        0 <= i < old.len() && i < new.len() && #[trigger] new[i] != null_id() && old[i] != new[i]
}

/// Whether a push with these old and new ids has to bring objects along.
pub fn pkt_needed(old: &Vec<Vec<u8>>, new: &Vec<Vec<u8>>) -> (r: bool)
    ensures
        r == needs_pack(seqs(old@), seqs(new@)),
{
    proof {
        reveal_strlit("0000000000000000000000000000000000000000");
    }
    let nul = bytes_of("0000000000000000000000000000000000000000");
    let mut i: usize = 0;
    while i < old.len() && i < new.len()
        invariant
            i <= old@.len(),
            i <= new@.len(),
            nul@ == null_id(),
            forall|j: int|
                0 <= j < i ==> !(#[trigger] seqs(new@)[j] != null_id() && seqs(old@)[j] != seqs(
                    new@,
                )[j]),
        decreases old@.len() - i,
    {
        if !bytes_eq(new[i].as_slice(), nul.as_slice()) && !bytes_eq(
            old[i].as_slice(),
            new[i].as_slice(),
        ) {
            assert(seqs(new@)[i as int] != null_id() && seqs(old@)[i as int] != seqs(new@)[i as int]);
            return true;
        }
        i = i + 1;
    }
    false
}

/// Where the first of `refs` (pairs of id and name) named `name` stands,
/// from `from` on, or their number when there is none.
pub open spec fn ref_index(refs: Seq<(Seq<u8>, Seq<u8>)>, name: Seq<u8>, from: int) -> int
    decreases refs.len() - from,
{
    if from < 0 || from >= refs.len() {
        refs.len() as int
    } else if refs[from].1 == name {
        from
    } else {
        ref_index(refs, name, from + 1)
    }
}

/// The place that `ref_index` gives lies between `from` and the end.
pub proof fn lemma_ref_index(refs: Seq<(Seq<u8>, Seq<u8>)>, name: Seq<u8>, from: int)
    requires
        0 <= from <= refs.len(),
    ensures
        from <= ref_index(refs, name, from) <= refs.len(),
        ref_index(refs, name, from) < refs.len() ==> refs[ref_index(refs, name, from)].1 == name,
        forall|k: int| from <= k < ref_index(refs, name, from) ==> (#[trigger] refs[k]).1 != name,
    decreases refs.len() - from,
{
    if from < refs.len() && refs[from].1 != name {
        lemma_ref_index(refs, name, from + 1);
    }
}

/// A place that holds the name, with the name nowhere before it, is what
/// `ref_index` gives.
pub proof fn lemma_ref_index_is(refs: Seq<(Seq<u8>, Seq<u8>)>, name: Seq<u8>, from: int, at: int)
    requires
        0 <= from <= at <= refs.len(),
        forall|k: int| from <= k < at ==> (#[trigger] refs[k]).1 != name,
        at == refs.len() || refs[at].1 == name,
    ensures
        ref_index(refs, name, from) == at,
    decreases at - from,
{
    if from < at {
        lemma_ref_index_is(refs, name, from + 1, at);
    }
}

/// The id that the reference `name` points at, if there is such a reference.
pub open spec fn ref_current(refs: Seq<(Seq<u8>, Seq<u8>)>, name: Seq<u8>) -> Option<Seq<u8>> {
    let p = ref_index(refs, name, 0);
    if p < refs.len() {
        Some(refs[p].0)
    } else {
        None
    }
}

/// The references with `name` pointing at `id`: in its old place when it
/// was there, at the end otherwise.
pub open spec fn ref_put(refs: Seq<(Seq<u8>, Seq<u8>)>, name: Seq<u8>, id: Seq<u8>) -> Seq<
    (Seq<u8>, Seq<u8>),
> {
    let p = ref_index(refs, name, 0);
    if p < refs.len() {
        refs.update(p, (id, name))
    } else {
        refs.push((id, name))
    }
}

/// The references without the first one named `name`.
pub open spec fn ref_removed(refs: Seq<(Seq<u8>, Seq<u8>)>, name: Seq<u8>) -> Seq<
    (Seq<u8>, Seq<u8>),
> {
    let p = ref_index(refs, name, 0);
    if p < refs.len() {
        refs.remove(p)
    } else {
        refs
    }
}

/// What one update makes of the references. An update from the marker for
/// "no object" to an id creates the reference. An update from an id to the
/// marker deletes it. Any other update overwrites the reference, but only
/// where it still points at the old id; where it does not, the update fails
/// with `StaleReference`.
pub open spec fn apply_update(
    refs: Seq<(Seq<u8>, Seq<u8>)>,
    old: Seq<u8>,
    new: Seq<u8>,
    name: Seq<u8>,
) -> Result<Seq<(Seq<u8>, Seq<u8>)>, GitrError> {
    if old == null_id() && new != null_id() {
        Ok(ref_put(refs, name, new))
    } else if new == null_id() && old != null_id() {
        Ok(ref_removed(refs, name))
    } else if ref_current(refs, name) == Some(old) {
        Ok(ref_put(refs, name, new))
    } else {
        Err(GitrError::StaleReference)
    }
}

/// What the updates from the `i`-th on make of the references, one after
/// the other; the first that fails makes the whole fail.
pub open spec fn apply_updates(
    refs: Seq<(Seq<u8>, Seq<u8>)>,
    old: Seq<Seq<u8>>,
    new: Seq<Seq<u8>>,
    names: Seq<Seq<u8>>,
    i: int,
) -> Result<Seq<(Seq<u8>, Seq<u8>)>, GitrError>
    decreases names.len() - i,
{
    if i < 0 || i >= names.len() {
        Ok(refs)
    } else {
        match apply_update(refs, old[i], new[i], names[i]) {
            Err(e) => Err(e),
            Ok(next) => apply_updates(next, old, new, names, i + 1),
        }
    }
}

/// After a reference was put, it points at what was put.
pub proof fn lemma_current_after_put(refs: Seq<(Seq<u8>, Seq<u8>)>, name: Seq<u8>, id: Seq<u8>)
    ensures
        ref_current(ref_put(refs, name, id), name) == Some(id),
{
    let p = ref_index(refs, name, 0);
    lemma_ref_index(refs, name, 0);
    let after = ref_put(refs, name, id);
    assert forall|k: int| 0 <= k < p implies (#[trigger] after[k]).1 != name by {
        assert(after[k] == refs[k]);
    }
    lemma_ref_index_is(after, name, 0, p);
}

/// A push that comes too late is refused: once an update has moved a
/// reference from `old` to `new`, another update that still claims `old`
/// fails with `StaleReference`.
pub proof fn lemma_second_push_is_stale(
    refs: Seq<(Seq<u8>, Seq<u8>)>,
    old_id: Seq<u8>,
    new_id: Seq<u8>,
    other: Seq<u8>,
    name: Seq<u8>,
)
    requires
        old_id != null_id(),
        new_id != null_id(),
        other != null_id(),
        old_id != new_id,
        apply_update(refs, old_id, new_id, name) is Ok,
    ensures
        apply_update(apply_update(refs, old_id, new_id, name).unwrap(), old_id, other, name) == Err::<
            Seq<(Seq<u8>, Seq<u8>)>,
            GitrError,
        >(GitrError::StaleReference),
{
    lemma_current_after_put(refs, name, new_id);
}

/// The byte strings of a list of references.
pub open spec fn refs_view(v: Seq<(Vec<u8>, Vec<u8>)>) -> Seq<(Seq<u8>, Seq<u8>)> {
    Seq::new(v.len(), |i: int| (v[i].0@, v[i].1@))
}

/// Executable `ref_index`.
fn find_ref(refs: &Vec<(Vec<u8>, Vec<u8>)>, name: &[u8]) -> (r: usize)
    ensures
        r == ref_index(refs_view(refs@), name@, 0),
        r <= refs@.len(),
{
    let mut i: usize = 0;
    while i < refs.len()
        invariant
            i <= refs@.len(),
            ref_index(refs_view(refs@), name@, 0) == ref_index(refs_view(refs@), name@, i as int),
        decreases refs@.len() - i,
    {
        if bytes_eq(refs[i].1.as_slice(), name) {
            return i;
        }
        i = i + 1;
    }
    i
}

/// A copy of a list of references.
fn copy_refs(refs: &Vec<(Vec<u8>, Vec<u8>)>) -> (r: Vec<(Vec<u8>, Vec<u8>)>)
    ensures
        refs_view(r@) == refs_view(refs@),
{
    let mut out: Vec<(Vec<u8>, Vec<u8>)> = Vec::new();
    let mut i: usize = 0;
    while i < refs.len()
        invariant
            i <= refs@.len(),
            out@.len() == i,
            forall|k: int|
                0 <= k < i ==> (#[trigger] out@[k]).0@ == refs@[k].0@ && out@[k].1@ == refs@[k].1@,
        decreases refs@.len() - i,
    {
        out.push((refs[i].0.clone(), refs[i].1.clone()));
        i = i + 1;
    }
    assert(refs_view(out@) =~= refs_view(refs@));
    out
}

/// Makes the reference `name` point at `id`.
pub fn write_ref(refs: &mut Vec<(Vec<u8>, Vec<u8>)>, name: &[u8], id: &[u8])
    ensures
        refs_view(final(refs)@) == ref_put(refs_view(old(refs)@), name@, id@),
{
    let p = find_ref(refs, name);
    let ghost before = refs_view(refs@);
    let entry = (copy_range(id, 0, id.len()), copy_range(name, 0, name.len()));
    proof {
        assert(id@.subrange(0, id@.len() as int) =~= id@);
        assert(name@.subrange(0, name@.len() as int) =~= name@);
    }
    if p < refs.len() {
        refs.remove(p);
        refs.insert(p, entry);
        assert(refs_view(refs@) =~= before.update(p as int, (id@, name@)));
    } else {
        refs.push(entry);
        assert(refs_view(refs@) =~= before.push((id@, name@)));
    }
}

/// Removes the first reference named `name`, if there is one.
pub fn remove_ref(refs: &mut Vec<(Vec<u8>, Vec<u8>)>, name: &[u8])
    ensures
        refs_view(final(refs)@) == ref_removed(refs_view(old(refs)@), name@),
{
    let p = find_ref(refs, name);
    let ghost before = refs_view(refs@);
    if p < refs.len() {
        refs.remove(p);
        assert(refs_view(refs@) =~= before.remove(p as int));
    }
}

/// Applies one update to the references.
fn update_ref(refs: &mut Vec<(Vec<u8>, Vec<u8>)>, old_id: &[u8], new_id: &[u8], name: &[u8]) -> (r: Result<
    (),
    GitrError,
>)
    ensures
        match r {
            Ok(_) => apply_update(refs_view(old(refs)@), old_id@, new_id@, name@) == Ok::<
                Seq<(Seq<u8>, Seq<u8>)>,
                GitrError,
            >(refs_view(final(refs)@)),
            Err(e) => apply_update(refs_view(old(refs)@), old_id@, new_id@, name@) == Err::<
                Seq<(Seq<u8>, Seq<u8>)>,
                GitrError,
            >(e) && final(refs)@ == old(refs)@,
        },
{
    proof {
        reveal_strlit("0000000000000000000000000000000000000000");
    }
    let nul = bytes_of("0000000000000000000000000000000000000000");
    let old_is_nul = bytes_eq(old_id, nul.as_slice());
    let new_is_nul = bytes_eq(new_id, nul.as_slice());
    let p = find_ref(refs, name);
    let ghost before = refs_view(refs@);
    if new_is_nul && !old_is_nul {
        if p < refs.len() {
            refs.remove(p);
            assert(refs_view(refs@) =~= before.remove(p as int));
        }
        return Ok(());
    }
    if !(old_is_nul && !new_is_nul) {
        if p >= refs.len() || !bytes_eq(refs[p].0.as_slice(), old_id) {
            proof {
                if p < refs@.len() {
                    assert(before[p as int].0 == refs@[p as int].0@);
                }
            }
            return Err(GitrError::StaleReference);
        }
        proof {
            assert(before[p as int].0 == refs@[p as int].0@);
        }
    }
    let entry = (copy_range(new_id, 0, new_id.len()), copy_range(name, 0, name.len()));
    proof {
        assert(new_id@.subrange(0, new_id@.len() as int) =~= new_id@);
        assert(name@.subrange(0, name@.len() as int) =~= name@);
    }
    if p < refs.len() {
        refs.remove(p);
        refs.insert(p, entry);
        assert(refs_view(refs@) =~= before.update(p as int, (new_id@, name@)));
    } else {
        refs.push(entry);
        assert(refs_view(refs@) =~= before.push((new_id@, name@)));
    }
    Ok(())
}

/// Applies the updates of a push to the references, all or none: when one
/// of them fails, the references stay as they were. Fails with
/// `InvalidArgumentError` when the three lists are not of one length, and
/// with `StaleReference` when an update claims an old id that the reference
/// no longer points at.
pub fn update_refs(
    old_ids: Vec<Vec<u8>>,
    new_ids: Vec<Vec<u8>>,
    names: Vec<Vec<u8>>,
    refs: &mut Vec<(Vec<u8>, Vec<u8>)>,
) -> (r: Result<(), GitrError>)
    ensures
        ({
            let same = old_ids@.len() == names@.len() && new_ids@.len() == names@.len();
            let outcome = apply_updates(
                refs_view(old(refs)@),
                seqs(old_ids@),
                seqs(new_ids@),
                seqs(names@),
                0,
            );
            match r {
                Ok(_) => same && outcome == Ok::<Seq<(Seq<u8>, Seq<u8>)>, GitrError>(
                    refs_view(final(refs)@),
                ),
                Err(e) => final(refs)@ == old(refs)@ && if same {
                    outcome == Err::<Seq<(Seq<u8>, Seq<u8>)>, GitrError>(e)
                } else {
                    e == GitrError::InvalidArgumentError
                },
            }
        }),
{
    if old_ids.len() != names.len() || new_ids.len() != names.len() {
        return Err(GitrError::InvalidArgumentError);
    }
    let mut work = copy_refs(refs);
    let ghost ov = seqs(old_ids@);
    let ghost nv = seqs(new_ids@);
    let ghost mv = seqs(names@);
    let ghost start = refs_view(refs@);
    let mut i: usize = 0;
    while i < names.len()
        invariant
            i <= names@.len(),
            old_ids@.len() == names@.len(),
            new_ids@.len() == names@.len(),
            ov == seqs(old_ids@),
            nv == seqs(new_ids@),
            mv == seqs(names@),
            start == refs_view(refs@),
            refs@ == old(refs)@,
            apply_updates(start, ov, nv, mv, 0) == apply_updates(
                refs_view(work@),
                ov,
                nv,
                mv,
                i as int,
            ),
        decreases names@.len() - i,
    {
        assert(ov[i as int] == old_ids@[i as int]@ && nv[i as int] == new_ids@[i as int]@ && mv[
            i as int
        ] == names@[i as int]@);
        match update_ref(
            &mut work,
            old_ids[i].as_slice(),
            new_ids[i].as_slice(),
            names[i].as_slice(),
        ) {
            Ok(_) => {},
            Err(e) => {
                return Err(e);
            },
        }
        i = i + 1;
    }
    *refs = work;
    Ok(())
}

/// Where the first of `haves` that is among `known` stands, from `from`
/// on, or their number when there is none.
pub open spec fn first_known(haves: Seq<Seq<u8>>, known: Seq<Seq<u8>>, from: int) -> int
    decreases haves.len() - from,
{
    if from < 0 || from >= haves.len() {
        haves.len() as int
    } else if known.contains(haves[from]) {
        from
    } else {
        first_known(haves, known, from + 1)
    }
}

/// The answer to a negotiation: an `ACK` line for the first of the haves
/// that is known here (and fits in a pkt-line), a `NAK` line when there is
/// none.
pub open spec fn ack_reply(haves: Seq<Seq<u8>>, known: Seq<Seq<u8>>) -> Seq<u8> {
    let p = first_known(haves, known, 0);
    if p < haves.len() && haves[p].len() + 5 <= MAX_PKT_PAYLOAD {
        pkt_line(ascii("ACK "@) + haves[p] + seq![10u8])
    } else {
        pkt_line(ascii("NAK\n"@))
    }
}

/// Whether every one of `wants` is among `known`.
pub open spec fn all_known(wants: Seq<Seq<u8>>, known: Seq<Seq<u8>>) -> bool {
    forall|i: int| 0 <= i < wants.len() ==> known.contains(#[trigger] wants[i])
}

/// What a negotiation comes to: nothing at all when the request is a flush
/// marker alone; otherwise the wants and haves that it names and the answer
/// to send. `UnknownWant` when one of the wants was not advertised.
pub open spec fn negotiation(request: Seq<u8>, known: Seq<Seq<u8>>) -> Result<
    (Seq<Seq<u8>>, Seq<Seq<u8>>, Seq<u8>),
    GitrError,
> {
    if request == flush_pkt() {
        Ok((Seq::empty(), Seq::empty(), Seq::empty()))
    } else {
        match negotiated(lines_of(request), 0, 0, Seq::empty(), Seq::empty()) {
            Err(e) => Err(e),
            Ok((wants, haves)) => if all_known(wants, known) {
                Ok((wants, haves, ack_reply(haves, known)))
            } else {
                Err(GitrError::UnknownWant)
            },
        }
    }
}

/// Reads what a fetch asks for and has, checks every want against the ids
/// that were advertised, `guardados_id`, and makes the answer.
pub fn packfile_negotiation(request: &[u8], guardados_id: &Vec<Vec<u8>>) -> (r: Result<
    (Vec<Vec<u8>>, Vec<Vec<u8>>, Vec<u8>),
    GitrError,
>)
    ensures
        match r {
            Ok((wants, haves, reply)) => negotiation(request@, seqs(guardados_id@)) == Ok::<
                (Seq<Seq<u8>>, Seq<Seq<u8>>, Seq<u8>),
                GitrError,
            >((seqs(wants@), seqs(haves@), reply@)),
            Err(e) => negotiation(request@, seqs(guardados_id@)) == Err::<
                (Seq<Seq<u8>>, Seq<Seq<u8>>, Seq<u8>),
                GitrError,
            >(e),
        },
{
    proof {
        reveal_strlit("0000");
        reveal_strlit("ACK ");
        reveal_strlit("NAK\n");
    }
    let ghost e = Seq::<Seq<u8>>::empty();
    if bytes_eq(request, bytes_of("0000").as_slice()) {
        let wants: Vec<Vec<u8>> = Vec::new();
        let haves: Vec<Vec<u8>> = Vec::new();
        assert(seqs(wants@) =~= e);
        return Ok((wants, haves, Vec::new()));
    }
    let none: Vec<Vec<u8>> = Vec::new();
    let none2: Vec<Vec<u8>> = Vec::new();
    assert(seqs(none@) =~= e && seqs(none2@) =~= e);
    let (wants_id, haves_id) = match wants_n_haves(request, none, none2) {
        Ok(v) => v,
        Err(err) => {
            return Err(err);
        },
    };
    let ghost known = seqs(guardados_id@);
    let mut i: usize = 0;
    while i < wants_id.len()
        invariant
            i <= wants_id@.len(),
            known == seqs(guardados_id@),
            request@ != flush_pkt(),
            negotiated(lines_of(request@), 0, 0, Seq::empty(), Seq::empty()) == Ok::<
                (Seq<Seq<u8>>, Seq<Seq<u8>>),
                GitrError,
            >((seqs(wants_id@), seqs(haves_id@))),
            forall|k: int| 0 <= k < i ==> known.contains(#[trigger] seqs(wants_id@)[k]),
        decreases wants_id@.len() - i,
    {
        if !list_contains(guardados_id, wants_id[i].as_slice()) {
            assert(!known.contains(seqs(wants_id@)[i as int]));
            return Err(GitrError::UnknownWant);
        }
        i = i + 1;
    }
    let mut p: usize = 0;
    while p < haves_id.len() && !list_contains(guardados_id, haves_id[p].as_slice())
        invariant
            p <= haves_id@.len(),
            known == seqs(guardados_id@),
            first_known(seqs(haves_id@), known, 0) == first_known(seqs(haves_id@), known, p as int),
        decreases haves_id@.len() - p,
    {
        assert(seqs(haves_id@)[p as int] == haves_id@[p as int]@);
        p = p + 1;
    }
    let mut reply: Vec<u8> = Vec::new();
    if p < haves_id.len() && haves_id[p].len() <= MAX_PKT_PAYLOAD - 5 {
        assert(seqs(haves_id@)[p as int] == haves_id@[p as int]@);
        let mut payload = bytes_of("ACK ");
        push_all(&mut payload, haves_id[p].as_slice());
        payload.push(10u8);
        assert(payload@ =~= ascii("ACK "@) + haves_id@[p as int]@ + seq![10u8]);
        push_pkt_line(&mut reply, payload.as_slice());
        assert(reply@ =~= ack_reply(seqs(haves_id@), known));
    } else {
        proof {
            if p < haves_id@.len() {
                assert(seqs(haves_id@)[p as int] == haves_id@[p as int]@);
            }
        }
        push_pkt_line(&mut reply, bytes_of("NAK\n").as_slice());
        assert(reply@ =~= ack_reply(seqs(haves_id@), known));
    }
    Ok((wants_id, haves_id, reply))
}

/// The store after each of `contents` was written under the id of the same
/// place, as far as place `n`.
pub open spec fn written_all(
    entries: Seq<(Seq<u8>, Seq<u8>)>,
    ids: Seq<Seq<u8>>,
    contents: Seq<Seq<u8>>,
    n: int,
) -> Seq<(Seq<u8>, Seq<u8>)>
    decreases n,
{
    if n <= 0 {
        entries
    } else {
        written(written_all(entries, ids, contents, n - 1), ids[n - 1], contents[n - 1])
    }
}

/// Writes stored forms under their ids, each unless its id is held
/// already. Fails with `InvalidArgumentError`, writing nothing, exactly
/// when there are not as many ids as contents.
pub fn update_contents(ids: Vec<Vec<u8>>, content: Vec<Vec<u8>>, store: &mut ObjectStore) -> (r:
    Result<(), GitrError>)
    ensures
        match r {
            Ok(_) => ids@.len() == content@.len() && final(store)@ == written_all(
                old(store)@,
                seqs(ids@),
                seqs(content@),
                ids@.len() as int,
            ),
            Err(e) => ids@.len() != content@.len() && e == GitrError::InvalidArgumentError
                && final(store)@ == old(store)@,
        },
{
    if ids.len() != content.len() {
        return Err(GitrError::InvalidArgumentError);
    }
    let mut i: usize = 0;
    while i < ids.len()
        invariant
            i <= ids@.len() == content@.len(),
            store@ == written_all(old(store)@, seqs(ids@), seqs(content@), i as int),
        decreases ids@.len() - i,
    {
        assert(seqs(ids@)[i as int] == ids@[i as int]@ && seqs(content@)[i as int] == content@[
            i as int
        ]@);
        store.write_object(content[i].clone(), ids[i].clone());
        i = i + 1;
    }
    Ok(())
}

/// Whether the compressor succeeds on the canonical form of each of the
/// objects.
pub open spec fn forms_compress(objs: Seq<GitObjectView>) -> bool {
    forall|i: int| 0 <= i < objs.len() ==> compresses((#[trigger] objs[i]).canonical())
}

/// Unpacks a pack into the ids and the stored forms of its objects, in
/// order. Fails as unpacking does, or with `CompressionError` when the
/// compressor fails on the canonical form of one of the objects.
pub fn rcv_packfile_bruno(buffer: &[u8]) -> (r: Result<(Vec<Vec<u8>>, Vec<Vec<u8>>), GitrError>)
    ensures
        match r {
            Ok((hashes, contents)) => match unpacked(buffer@) {
                Ok(objs) => seqs(hashes@) == object_ids(objs) && seqs(contents@) == object_forms(
                    objs,
                ) && forms_compress(objs),
                Err(_) => false,
            },
            Err(e) => match unpacked(buffer@) {
                Err(broken) => e == broken,
                Ok(objs) => e == GitrError::CompressionError && !forms_compress(objs),
            },
        },
{
    let pk_file = match PackFile::new_from_server_packfile(buffer) {
        Ok(pack) => pack,
        Err(e) => {
            return Err(e);
        },
    };
    let ghost objs = objects_view(pk_file.objects@);
    let mut hashes: Vec<Vec<u8>> = Vec::new();
    let mut contents: Vec<Vec<u8>> = Vec::new();
    let mut i: usize = 0;
    proof {
        assert(seqs(hashes@) =~= object_ids(objs).subrange(0, 0));
        assert(seqs(contents@) =~= object_forms(objs).subrange(0, 0));
    }
    while i < pk_file.objects.len()
        invariant
            i <= pk_file.objects@.len(),
            objs == objects_view(pk_file.objects@),
            unpacked(buffer@) == Ok::<Seq<GitObjectView>, GitrError>(objs),
            seqs(hashes@) == object_ids(objs).subrange(0, i as int),
            seqs(contents@) == object_forms(objs).subrange(0, i as int),
            forall|k: int| 0 <= k < i ==> compresses((#[trigger] objs[k]).canonical()),
        decreases pk_file.objects@.len() - i,
    {
        assert(objs[i as int] == pk_file.objects@[i as int]@);
        let data = match pk_file.objects[i].get_data() {
            Ok(data) => data,
            Err(e) => {
                assert(!compresses(objs[i as int].canonical()));
                return Err(e);
            },
        };
        let ghost hashes_before = seqs(hashes@);
        let ghost contents_before = seqs(contents@);
        let hash = pk_file.objects[i].get_hash();
        hashes.push(hash);
        contents.push(data);
        proof {
            assert(seqs(hashes@) =~= hashes_before.push(objs[i as int].id()));
            assert(seqs(contents@) =~= contents_before.push(
                zlib_stream(objs[i as int].canonical()),
            ));
            assert(object_ids(objs).subrange(0, i + 1) =~= object_ids(objs).subrange(
                0,
                i as int,
            ).push(objs[i as int].id()));
            assert(object_forms(objs).subrange(0, i + 1) =~= object_forms(objs).subrange(
                0,
                i as int,
            ).push(zlib_stream(objs[i as int].canonical())));
        }
        i = i + 1;
    }
    proof {
        assert(object_ids(objs).subrange(0, i as int) =~= object_ids(objs));
        assert(object_forms(objs).subrange(0, i as int) =~= object_forms(objs));
    }
    Ok((hashes, contents))
}

/// The error of the first of `ids`, from the `i`-th on, whose object
/// cannot be read from the store; none where all can be read.
pub open spec fn read_failure(store: Seq<(Seq<u8>, Seq<u8>)>, ids: Seq<Seq<u8>>, i: int) -> Option<
    GitrError,
>
    decreases ids.len() - i,
{
    if i < 0 || i >= ids.len() {
        None
    } else {
        match stored_object(store, ids[i]) {
            Err(e) => Some(e),
            Ok(_) => read_failure(store, ids, i + 1),
        }
    }
}

/// Whether the store holds, under one of `ids`, an object on whose payload
/// the compressor fails.
pub open spec fn unpackable(store: Seq<(Seq<u8>, Seq<u8>)>, ids: Seq<Seq<u8>>) -> bool {
    exists|i: int|
        0 <= i < ids.len() && match stored_object(store, #[trigger] ids[i]) {
            Ok(object) => !compresses(object.payload()),
            Err(_) => false,
        }
}

/// Whether making the pack that answers a fetch may fail with `e`: the
/// walk fails with it; or the walk gives ids, and `e` is the error of the
/// first of them whose object cannot be read; or all of them can be read,
/// and `e` is `InvalidArgumentError` where they are more than the count
/// field of a pack can hold, and else `CompressionError`, the compressor
/// failing on the payload of one of them.
pub open spec fn answer_fails(
    store: Seq<(Seq<u8>, Seq<u8>)>,
    haves: Seq<Seq<u8>>,
    wants: Seq<Seq<u8>>,
    e: GitrError,
) -> bool {
    ||| walk_result(store, haves, everything(), history_nodes(wants), Err(e))
    ||| exists|ids: Seq<Seq<u8>>|
        #[trigger] walk_result(store, haves, everything(), history_nodes(wants), Ok(ids))
            && match read_failure(store, ids, 0) {
            Some(first) => e == first,
            None => if ids.len() > u32::MAX {
                e == GitrError::InvalidArgumentError
            } else {
                e == GitrError::CompressionError && unpackable(store, ids)
            },
        }
}

/// Whether `pack` answers a fetch of `wants` by one who has `haves`: it
/// unpacks to the objects of the closure of the wants, bounded by the
/// haves, in the order of the walk, each as the store holds it.
pub open spec fn answers(
    store: Seq<(Seq<u8>, Seq<u8>)>,
    haves: Seq<Seq<u8>>,
    wants: Seq<Seq<u8>>,
    pack: Seq<u8>,
) -> bool {
    match unpacked(pack) {
        Ok(objs) => exists|ids: Seq<Seq<u8>>|
            {
                &&& #[trigger] walk_result(
                    store,
                    haves,
                    everything(),
                    history_nodes(wants),
                    Ok(ids),
                )
                &&& objs.len() == ids.len()
                &&& forall|i: int|
                    0 <= i < ids.len() ==> stored_object(store, #[trigger] ids[i]) == Ok::<
                        GitObjectView,
                        GitrError,
                    >(objs[i])
            },
        Err(_) => false,
    }
}

/// Makes the pack that answers a fetch: the closure of the wants, bounded
/// by the haves, each object taken from the store. What comes out unpacks
/// to these objects, in the order of the walk. It fails as the walk fails,
/// as reading one of the objects fails, and as packing them fails.
pub fn snd_packfile(wants_id: Vec<Vec<u8>>, haves_id: Vec<Vec<u8>>, store: &ObjectStore) -> (r:
    Result<Vec<u8>, GitrError>)
    ensures
        match r {
            Ok(pack) => answers(store@, seqs(haves_id@), seqs(wants_id@), pack@),
            Err(e) => answer_fails(store@, seqs(haves_id@), seqs(wants_id@), e),
        },
{
    let ids = match closure(&wants_id, &haves_id, store) {
        Ok(ids) => ids,
        Err(e) => {
            return Err(e);
        },
    };
    let mut objects: Vec<GitObject> = Vec::new();
    let mut i: usize = 0;
    while i < ids.len()
        invariant
            i <= ids@.len(),
            objects@.len() == i,
            walk_result(
                store@,
                seqs(haves_id@),
                everything(),
                history_nodes(seqs(wants_id@)),
                Ok(seqs(ids@)),
            ),
            read_failure(store@, seqs(ids@), 0) == read_failure(store@, seqs(ids@), i as int),
            forall|k: int|
                0 <= k < i ==> stored_object(store@, #[trigger] seqs(ids@)[k]) == Ok::<
                    GitObjectView,
                    GitrError,
                >(objects_view(objects@)[k]),
        decreases ids@.len() - i,
    {
        assert(seqs(ids@)[i as int] == ids@[i as int]@);
        let ghost before = objects_view(objects@);
        match store.get(ids[i].as_slice()) {
            Ok(obj) => {
                objects.push(obj);
                proof {
                    assert forall|k: int| 0 <= k < i + 1 implies stored_object(
                        store@,
                        #[trigger] seqs(ids@)[k],
                    ) == Ok::<GitObjectView, GitrError>(objects_view(objects@)[k]) by {
                        if k < i {
                            assert(objects_view(objects@)[k] == before[k]);
                        }
                    }
                }
            },
            Err(e) => {
                return Err(e);
            },
        }
        i = i + 1;
    }
    match pack_objects(&objects) {
        Ok(pack) => {
            proof {
                let idv = seqs(ids@);
                let objs = objects_view(objects@);
                assert(walk_result(
                    store@,
                    seqs(haves_id@),
                    everything(),
                    history_nodes(seqs(wants_id@)),
                    Ok(idv),
                ));
                assert(unpacked(pack@) == Ok::<Seq<GitObjectView>, GitrError>(objs));
            }
            Ok(pack)
        },
        Err(e) => {
            proof {
                let idv = seqs(ids@);
                let objs = objects_view(objects@);
                if objs.len() <= u32::MAX {
                    let entries = crate::git_transport::pack_file::entries_of(objs);
                    let i = choose|i: int|
                        0 <= i < entries.len() && !compresses(#[trigger] entries[i].payload);
                    assert(stored_object(store@, idv[i]) == Ok::<GitObjectView, GitrError>(objs[i]));
                    assert(entries[i].payload == objs[i].payload());
                    assert(unpackable(store@, idv));
                }
            }
            Err(e)
        },
    }
}

/// Answers a fetch: reads what it asks for and has, and, when it asks for
/// anything, makes the pack to send after the answer: the pack of the
/// closure of the wants, bounded by the haves. It fails as the negotiation
/// fails, and, where something is asked for, as making the pack fails.
pub fn gitr_upload_pack(request: &[u8], guardados_id: &Vec<Vec<u8>>, store: &ObjectStore) -> (r:
    Result<(Vec<u8>, Option<Vec<u8>>), GitrError>)
    ensures
        match negotiation(request@, seqs(guardados_id@)) {
            Err(failed) => r == Err::<(Vec<u8>, Option<Vec<u8>>), GitrError>(failed),
            Ok(n) => match r {
                Ok((reply, pack)) => reply@ == n.2 && match pack {
                    Some(p) => n.0.len() > 0 && answers(store@, n.1, n.0, p@),
                    None => n.0.len() == 0,
                },
                Err(e) => n.0.len() > 0 && answer_fails(store@, n.1, n.0, e),
            },
        },
{
    let (wants_id, haves_id, reply) = match packfile_negotiation(request, guardados_id) {
        Ok(v) => v,
        Err(e) => {
            return Err(e);
        },
    };
    if wants_id.len() == 0 {
        return Ok((reply, None));
    }
    match snd_packfile(wants_id, haves_id, store) {
        Ok(pack) => Ok((reply, Some(pack))),
        Err(e) => Err(e),
    }
}

/// The ids of a sequence of objects.
pub open spec fn object_ids(objs: Seq<GitObjectView>) -> Seq<Seq<u8>> {
    Seq::new(objs.len(), |i: int| objs[i].id())
}

/// The stored forms of a sequence of objects.
pub open spec fn object_forms(objs: Seq<GitObjectView>) -> Seq<Seq<u8>> {
    Seq::new(objs.len(), |i: int| zlib_stream(objs[i].canonical()))
}

/// Takes in a push: reads the updates asked for; when they bring objects
/// along, unpacks the pack and writes its objects to the store; and applies
/// the updates to the references. All or nothing: on any failure store and
/// references stay as they were. It fails as reading the updates fails;
/// then, where objects are brought along, as unpacking fails, or with
/// `CompressionError` where an object cannot be compressed for the store;
/// and then as applying the updates fails, with `StaleReference` where one
/// of them claims an old id that its reference no longer points at.
pub fn gitr_receive_pack(
    changes: &[u8],
    pack: &[u8],
    store: &mut ObjectStore,
    refs: &mut Vec<(Vec<u8>, Vec<u8>)>,
) -> (r: Result<(), GitrError>)
    ensures
        match r {
            Err(e) => final(store)@ == old(store)@ && final(refs)@ == old(refs)@ && match changes_from(
                lines_of(changes@),
                0,
                Seq::empty(),
                Seq::empty(),
                Seq::empty(),
            ) {
                Err(first) => e == first,
                Ok(c) => {
                    let stale = apply_updates(refs_view(old(refs)@), c.0, c.1, c.2, 0) == Err::<
                        Seq<(Seq<u8>, Seq<u8>)>,
                        GitrError,
                    >(e);
                    if needs_pack(c.0, c.1) {
                        match unpacked(pack@) {
                            Err(broken) => e == broken,
                            Ok(objs) => (e == GitrError::CompressionError && !forms_compress(
                                objs,
                            )) || stale,
                        }
                    } else {
                        stale
                    }
                },
            },
            Ok(_) => match changes_from(
                lines_of(changes@),
                0,
                Seq::empty(),
                Seq::empty(),
                Seq::empty(),
            ) {
                Err(_) => false,
                Ok(c) => {
                    &&& apply_updates(refs_view(old(refs)@), c.0, c.1, c.2, 0) == Ok::<
                        Seq<(Seq<u8>, Seq<u8>)>,
                        GitrError,
                    >(refs_view(final(refs)@))
                    &&& if needs_pack(c.0, c.1) {
                        match unpacked(pack@) {
                            Err(_) => false,
                            Ok(objs) => final(store)@ == written_all(
                                old(store)@,
                                object_ids(objs),
                                object_forms(objs),
                                objs.len() as int,
                            ),
                        }
                    } else {
                        final(store)@ == old(store)@
                    }
                },
            },
        },
{
    let (old_ids, new_ids, names) = match get_changes(changes) {
        Ok(c) => c,
        Err(e) => {
            return Err(e);
        },
    };
    let needed = pkt_needed(&old_ids, &new_ids);
    let ghost ov = seqs(old_ids@);
    let ghost nv = seqs(new_ids@);
    let ghost mv = seqs(names@);
    let received = if needed {
        match rcv_packfile_bruno(pack) {
            Ok(v) => Some(v),
            Err(e) => {
                return Err(e);
            },
        }
    } else {
        None
    };
    match update_refs(old_ids, new_ids, names, refs) {
        Ok(_) => {},
        Err(e) => {
            return Err(e);
        },
    }
    match received {
        Some((ids, content)) => {
            proof {
                let objs = unpacked(pack@).unwrap();
                assert(seqs(ids@) == object_ids(objs));
                assert(seqs(content@) == object_forms(objs));
                assert(seqs(ids@).len() == ids@.len() && seqs(content@).len() == content@.len());
                assert(object_ids(objs).len() == objs.len() && object_forms(objs).len()
                    == objs.len());
            }
            match update_contents(ids, content, store) {
                Ok(_) => {},
                Err(_) => {},
            }
        },
        None => {},
    }
    proof {
        assert(needed == needs_pack(ov, nv));
    }
    Ok(())
}

/// What stands after the first colon of `host`, or all of it when it holds none.
pub open spec fn after_colon(host: Seq<u8>) -> Seq<u8> {
    let at = crate::text::find_from(host, 58, 0);
    if at < host.len() {
        host.subrange(at + 1, host.len() as int)
    } else {
        host
    }
}

/// Where the repository that a request names is kept: `server`, what
/// stands after the colon of the host, `/repos/`, and the name.
pub open spec fn served_path(parts: Seq<Seq<u8>>) -> Seq<u8> {
    ascii("server"@) + after_colon(parts[2]) + ascii("/repos/"@) + parts[1]
}

/// Takes in the request that opens an exchange: the command that it asks
/// for and the place of the repository that it names. `ConnectionError`
/// when the request is not framed as a pkt-line or is no request.
pub fn handle_pkt_line(request: &[u8]) -> (r: Result<(Vec<u8>, Vec<u8>), GitrError>)
    ensures
        match r {
            Ok((command, r_path)) => valid_pkt(request@) && match request_parts(request@) {
                Some(parts) => command@ == parts[0] && r_path@ == served_path(parts),
                None => false,
            },
            Err(e) => e == GitrError::ConnectionError && (!valid_pkt(request@) || request_parts(
                request@,
            ) is None),
        },
{
    match is_valid_pkt_line(request) {
        Ok(_) => {},
        Err(e) => {
            return Err(e);
        },
    }
    let elems = match split_n_validate_elems(request) {
        Ok(elems) => elems,
        Err(e) => {
            return Err(e);
        },
    };
    proof {
        reveal_strlit("server");
        reveal_strlit("/repos/");
        assert(seqs(elems@)[0] == elems@[0]@ && seqs(elems@)[1] == elems@[1]@ && seqs(elems@)[2]
            == elems@[2]@);
    }
    let host = elems[2].as_slice();
    let at = crate::text::find_byte(host, 58u8, 0);
    let mut r_path = bytes_of("server");
    if at < host.len() {
        crate::text::push_range(&mut r_path, host, at + 1, host.len());
    } else {
        push_all(&mut r_path, host);
    }
    push_all(&mut r_path, bytes_of("/repos/").as_slice());
    push_all(&mut r_path, elems[1].as_slice());
    assert(r_path@ =~= served_path(seqs(elems@)));
    Ok((elems[0].clone(), r_path))
}

} // verus!
