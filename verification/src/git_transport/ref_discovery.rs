use crate::ancestry::{is_parent, reaches};
use crate::file_manager::ObjectStore;
use crate::gitr_errors::GitrError;
use crate::text::{
    ascii, bytes_eq, bytes_of, copy_range, find_byte, find_from, hex4, lacks, lemma_find_unique,
    lines, lines_from, lines_of, push_all, push_hex4, seqs, split, split_on, list_contains,
};
use vstd::prelude::*;

verus! {

/// The longest payload that fits in a pkt-line.
pub const MAX_PKT_PAYLOAD: usize = 0xfffb;

/// A pkt-line: the length of the whole in four hex digits, and the payload.
pub open spec fn pkt_line(payload: Seq<u8>) -> Seq<u8> {
    hex4(payload.len() as int + 4) + payload
}

/// The flush marker: a pkt-line of length zero.
pub open spec fn flush_pkt() -> Seq<u8> {
    ascii("0000"@)
}

/// Appends `payload` as a pkt-line.
pub fn push_pkt_line(out: &mut Vec<u8>, payload: &[u8])
    requires
        payload@.len() <= MAX_PKT_PAYLOAD,
    ensures
        final(out)@ == old(out)@ + pkt_line(payload@),
{
    push_hex4(out, payload.len() + 4);
    push_all(out, payload);
    assert(out@ =~= old(out)@ + pkt_line(payload@));
}

/// Appends a flush marker.
pub fn push_flush(out: &mut Vec<u8>)
    ensures
        final(out)@ == old(out)@ + flush_pkt(),
{
    proof {
        reveal_strlit("0000");
    }
    push_all(out, bytes_of("0000").as_slice());
}

/// The id on a line of a reference advertisement: what stands between the
/// four bytes of the length and the first space.
pub open spec fn head_hash_of(line: Seq<u8>) -> Seq<u8> {
    let sp = find_from(line, 32, 0);
    if sp < 4 {
        Seq::empty()
    } else {
        line.subrange(4, sp)
    }
}

/// The id on the first line of a reference advertisement.
pub fn extract_head_hash(head_slice: &[u8]) -> (r: Vec<u8>)
    ensures
        r@ == head_hash_of(head_slice@),
{
    let sp = find_byte(head_slice, 32u8, 0);
    if sp < 4 {
        Vec::new()
    } else {
        copy_range(head_slice, 4, sp)
    }
}

/// The id and the name on a line of a reference advertisement: the first
/// word without the four bytes of the length, and the second word (empty
/// when there is none).
pub open spec fn hash_and_ref_of(line: Seq<u8>) -> (Seq<u8>, Seq<u8>) {
    let words = split_on(line, 32);
    (
        head_hash_of(line),
        if words.len() > 1 {
            words[1]
        } else {
            Seq::empty()
        },
    )
}

/// The id and the name on a line of a reference advertisement.
pub fn extract_hash_and_ref(ref_slice: &[u8]) -> (r: (Vec<u8>, Vec<u8>))
    ensures
        (r.0@, r.1@) == hash_and_ref_of(ref_slice@),
{
    let words = split(ref_slice, 32u8);
    let name = if words.len() > 1 {
        assert(seqs(words@)[1] == words@[1]@);
        words[1].clone()
    } else {
        Vec::new()
    };
    (extract_head_hash(ref_slice), name)
}

/// The name under which the first advertised reference is reported.
pub open spec fn head_name() -> Seq<u8> {
    ascii("HEAD"@)
}

/// The references on the lines from line `i` on, up to an empty line or a
/// flush marker.
pub open spec fn refs_on(lines: Seq<Seq<u8>>, i: int) -> Seq<(Seq<u8>, Seq<u8>)>
    decreases lines.len() - i,
{
    if i < 0 || i >= lines.len() || lines[i].len() == 0 || lines[i] == flush_pkt() {
        Seq::empty()
    } else {
        seq![hash_and_ref_of(lines[i])] + refs_on(lines, i + 1)
    }
}

/// What a reference advertisement holds: pairs of id and name, in order.
/// None when it is empty or nothing but a flush marker. The first line is
/// taken to be that of `HEAD`, whatever name stands on it.
pub open spec fn discovered(data: Seq<u8>) -> Seq<(Seq<u8>, Seq<u8>)> {
    let lines = lines_of(data);
    if data.len() == 0 || data == flush_pkt() || lines.len() == 0 {
        Seq::empty()
    } else {
        seq![(head_hash_of(lines[0]), head_name())] + refs_on(lines, 1)
    }
}

/// The byte strings of a list of pairs.
pub open spec fn pairs(v: Seq<(Vec<u8>, Vec<u8>)>) -> Seq<(Seq<u8>, Seq<u8>)> {
    Seq::new(v.len(), |i: int| (v[i].0@, v[i].1@))
}

/// Reads a reference advertisement into pairs of id and name.
pub fn discover_references(received_data: &[u8]) -> (r: Result<
    Vec<(Vec<u8>, Vec<u8>)>,
    GitrError,
>)
    ensures
        r matches Ok(refs) && pairs(refs@) == discovered(received_data@),
{
    proof {
        reveal_strlit("0000");
        reveal_strlit("HEAD");
    }
    let mut references: Vec<(Vec<u8>, Vec<u8>)> = Vec::new();
    let all = lines(received_data);
    let flush = bytes_of("0000");
    if received_data.len() == 0 || bytes_eq(received_data, flush.as_slice()) || all.len() == 0 {
        assert(pairs(references@) =~= discovered(received_data@));
        return Ok(references);
    }
    let ghost ls = seqs(all@);
    assert(ls[0] == all@[0]@);
    references.push((extract_head_hash(all[0].as_slice()), bytes_of("HEAD")));
    let ghost first = pairs(references@);
    assert(first =~= seq![(head_hash_of(ls[0]), head_name())]);
    let mut i: usize = 1;
    proof {
        assert(first + refs_on(ls, 1) =~= discovered(received_data@));
    }
    while i < all.len()
        invariant_except_break
            pairs(references@) + refs_on(ls, i as int) == discovered(received_data@),
        invariant
            1 <= i <= all@.len(),
            ls == seqs(all@),
            flush@ == flush_pkt(),
        ensures
            pairs(references@) == discovered(received_data@),
        decreases all@.len() - i,
    {
        let line = all[i].as_slice();
        assert(ls[i as int] == line@);
        if line.len() == 0 || bytes_eq(line, flush.as_slice()) {
            proof {
                assert(refs_on(ls, i as int) =~= Seq::<(Seq<u8>, Seq<u8>)>::empty());
                assert(pairs(references@) + refs_on(ls, i as int) =~= pairs(references@));
            }
            break ;
        }
        let ghost before = pairs(references@);
        references.push(extract_hash_and_ref(line));
        proof {
            assert(pairs(references@) =~= before.push(hash_and_ref_of(line@)));
            assert(pairs(references@) + refs_on(ls, i + 1) =~= before + refs_on(ls, i as int));
        }
        i = i + 1;
        proof {
            if i >= all@.len() {
                assert(refs_on(ls, i as int) =~= Seq::<(Seq<u8>, Seq<u8>)>::empty());
                assert(pairs(references@) + refs_on(ls, i as int) =~= pairs(references@));
            }
        }
    }
    Ok(references)
}

/// A line of a reference advertisement without its line feed: the length,
/// the id, a space, and the name.
pub open spec fn ref_body(r: (Seq<u8>, Seq<u8>)) -> Seq<u8> {
    hex4((r.0.len() + r.1.len() + 6) as int) + r.0 + seq![32u8] + r.1
}

/// The lines of a reference advertisement for `refs`, one after the other.
pub open spec fn ref_lines(refs: Seq<(Seq<u8>, Seq<u8>)>) -> Seq<u8>
    decreases refs.len(),
{
    if refs.len() == 0 {
        Seq::empty()
    } else {
        ref_lines(refs.drop_last()) + ref_body(refs.last()) + seq![10u8]
    }
}

/// A reference advertisement: a line for each reference, and a flush marker.
pub open spec fn advertisement(refs: Seq<(Seq<u8>, Seq<u8>)>) -> Seq<u8> {
    ref_lines(refs) + flush_pkt()
}

/// A reference that can be advertised and read back: neither space nor line
/// feed in the id, neither space, line feed nor carriage return in the name,
/// and short enough for a pkt-line.
pub open spec fn ref_ok(r: (Seq<u8>, Seq<u8>)) -> bool {
    &&& lacks(r.0, 32)
    &&& lacks(r.0, 10)
    &&& lacks(r.1, 32)
    &&& lacks(r.1, 10)
    &&& lacks(r.1, 13)
    &&& r.0.len() + r.1.len() + 2 <= MAX_PKT_PAYLOAD
}

/// The id that `HEAD` resolves to: that of the first of `refs` named `head_ref`.
pub open spec fn head_target(refs: Seq<(Seq<u8>, Seq<u8>)>, head_ref: Seq<u8>, from: int) -> Option<
    Seq<u8>,
>
    decreases refs.len() - from,
{
    if from < 0 || from >= refs.len() {
        None
    } else if refs[from].1 == head_ref {
        Some(refs[from].0)
    } else {
        head_target(refs, head_ref, from + 1)
    }
}

/// What is advertised for `refs` when `HEAD` points at the reference named
/// `head_ref`: an entry for `HEAD` when that reference exists, and then the
/// references.
pub open spec fn advertised_refs(refs: Seq<(Seq<u8>, Seq<u8>)>, head_ref: Seq<u8>) -> Seq<
    (Seq<u8>, Seq<u8>),
> {
    match head_target(refs, head_ref, 0) {
        Some(id) => seq![(id, head_name())] + refs,
        None => refs,
    }
}

/// The first components of a sequence of pairs.
pub open spec fn firsts(refs: Seq<(Seq<u8>, Seq<u8>)>) -> Seq<Seq<u8>> {
    Seq::new(refs.len(), |i: int| refs[i].0)
}

proof fn lemma_ref_lines_cons(r: (Seq<u8>, Seq<u8>), refs: Seq<(Seq<u8>, Seq<u8>)>)
    ensures
        ref_lines(seq![r] + refs) == ref_body(r) + seq![10u8] + ref_lines(refs),
    decreases refs.len(),
{
    let all = seq![r] + refs;
    if refs.len() == 0 {
        assert(all.drop_last() =~= Seq::<(Seq<u8>, Seq<u8>)>::empty());
        assert(all.last() == r);
        assert(ref_lines(all.drop_last()) =~= Seq::<u8>::empty());
        assert(ref_lines(all) =~= ref_body(r) + seq![10u8]);
        assert(ref_lines(refs) =~= Seq::<u8>::empty());
    } else {
        lemma_ref_lines_cons(r, refs.drop_last());
        assert(all.drop_last() =~= seq![r] + refs.drop_last());
        assert(all.last() == refs.last());
        assert(ref_lines(all) =~= ref_body(r) + seq![10u8] + ref_lines(refs));
    }
}

/// Hex digits are neither spaces, line feeds nor carriage returns.
proof fn lemma_hex4_plain(n: int)
    requires
        0 <= n < 0x10000,
    ensures
        lacks(hex4(n), 32),
        lacks(hex4(n), 10),
        lacks(hex4(n), 13),
        hex4(n).len() == 4,
{
}

/// The id and name read from the line of a reference are its own.
proof fn lemma_ref_body(r: (Seq<u8>, Seq<u8>))
    requires
        ref_ok(r),
    ensures
        hash_and_ref_of(ref_body(r)) == r,
        lacks(ref_body(r), 10),
        ref_body(r).len() == 0 || ref_body(r).last() != 13,
        ref_body(r).len() > 4,
        ref_body(r) != flush_pkt(),
{
    let n = r.0.len() + r.1.len() + 6;
    lemma_hex4_plain(n as int);
    let h = hex4(n as int);
    let a = h + r.0;
    let body = ref_body(r);
    assert(body =~= a + seq![32u8] + r.1);
    assert(lacks(a, 32)) by {
        assert forall|i: int| 0 <= i < a.len() implies a[i] != 32 by {
            if i < 4 {
                assert(a[i] == h[i]);
            } else {
                assert(a[i] == r.0[i - 4]);
            }
        }
    }
    crate::text::lemma_split_two(a, 32, r.1);
    assert forall|j: int| 0 <= j < a.len() implies body[j] != 32 by {
        assert(body[j] == a[j]);
    }
    lemma_find_unique(body, 32, 0, a.len() as int);
    assert(body.subrange(4, a.len() as int) =~= r.0);
    assert forall|i: int| 0 <= i < body.len() implies body[i] != 10 by {
        if i < 4 {
            assert(body[i] == h[i]);
        } else if i < a.len() {
            assert(body[i] == r.0[i - 4]);
        } else if i > a.len() {
            assert(body[i] == r.1[i - a.len() - 1]);
        }
    }
    if r.1.len() > 0 {
        assert(body.last() == r.1.last());
    } else {
        assert(body.last() == 32);
    }
    reveal_strlit("0000");
    assert(flush_pkt().len() == 4);
}

/// The lines of an advertisement written after `prefix`: the lines of the
/// references, and the flush marker.
proof fn lemma_advertisement_lines(prefix: Seq<u8>, refs: Seq<(Seq<u8>, Seq<u8>)>)
    requires
        forall|i: int| 0 <= i < refs.len() ==> ref_ok(#[trigger] refs[i]),
    ensures
        lines_from(prefix + advertisement(refs), prefix.len() as int) == Seq::new(
            refs.len(),
            |i: int| ref_body(refs[i]),
        ) + seq![flush_pkt()],
    decreases refs.len(),
{
    let data = prefix + advertisement(refs);
    let from = prefix.len() as int;
    reveal_strlit("0000");
    assert(flush_pkt().len() == 4);
    if refs.len() == 0 {
        assert(ref_lines(refs) =~= Seq::<u8>::empty());
        assert(data =~= prefix + flush_pkt());
        assert forall|j: int| from <= j < data.len() implies data[j] != 10 by {
            assert(data[j] == flush_pkt()[j - from]);
        }
        lemma_find_unique(data, 10, from, data.len() as int);
        assert(data.subrange(from, data.len() as int) =~= flush_pkt());
        assert(lines_from(data, from) =~= seq![flush_pkt()]);
        assert(Seq::new(refs.len(), |i: int| ref_body(refs[i])) =~= Seq::<Seq<u8>>::empty());
    } else {
        let r = refs[0];
        let rest = refs.subrange(1, refs.len() as int);
        assert(refs =~= seq![r] + rest);
        lemma_ref_lines_cons(r, rest);
        let body = ref_body(r);
        lemma_ref_body(r);
        let prefix2 = prefix + body + seq![10u8];
        assert(data =~= prefix2 + advertisement(rest));
        assert(data.subrange(from, from + body.len()) =~= body);
        assert(data[from + body.len()] == 10);
        crate::text::lemma_lines_step(data, from, body);
        assert forall|i: int| 0 <= i < rest.len() implies ref_ok(#[trigger] rest[i]) by {
            assert(rest[i] == refs[i + 1]);
        }
        lemma_advertisement_lines(prefix2, rest);
        assert(seq![body] + (Seq::new(rest.len(), |i: int| ref_body(rest[i])) + seq![
            flush_pkt(),
        ]) =~= Seq::new(refs.len(), |i: int| ref_body(refs[i])) + seq![flush_pkt()]);
    }
}

/// The references on the lines of an advertisement, from line `i` on, are
/// the references from the `i`-th on.
proof fn lemma_refs_on_lines(refs: Seq<(Seq<u8>, Seq<u8>)>, i: int)
    requires
        0 <= i <= refs.len(),
        forall|k: int| 0 <= k < refs.len() ==> ref_ok(#[trigger] refs[k]),
    ensures
        refs_on(Seq::new(refs.len(), |k: int| ref_body(refs[k])) + seq![flush_pkt()], i)
            == refs.subrange(i, refs.len() as int),
    decreases refs.len() - i,
{
    let lines = Seq::new(refs.len(), |k: int| ref_body(refs[k])) + seq![flush_pkt()];
    if i == refs.len() {
        assert(lines[i] == flush_pkt());
        assert(refs.subrange(i, refs.len() as int) =~= Seq::<(Seq<u8>, Seq<u8>)>::empty());
    } else {
        assert(lines[i] == ref_body(refs[i]));
        lemma_ref_body(refs[i]);
        lemma_refs_on_lines(refs, i + 1);
        assert(seq![refs[i]] + refs.subrange(i + 1, refs.len() as int) =~= refs.subrange(
            i,
            refs.len() as int,
        ));
    }
}

/// Discovery reads back what was advertised: an advertisement that starts
/// with the entry for `HEAD` is read as its references, in order.
pub proof fn lemma_discover_advertised(id: Seq<u8>, refs: Seq<(Seq<u8>, Seq<u8>)>)
    requires
        ref_ok((id, head_name())),
        forall|k: int| 0 <= k < refs.len() ==> ref_ok(#[trigger] refs[k]),
    ensures
        discovered(advertisement(seq![(id, head_name())] + refs)) == seq![(id, head_name())]
            + refs,
{
    let all = seq![(id, head_name())] + refs;
    let data = advertisement(all);
    assert forall|k: int| 0 <= k < all.len() implies ref_ok(#[trigger] all[k]) by {
        if k > 0 {
            assert(all[k] == refs[k - 1]);
        }
    }
    lemma_advertisement_lines(Seq::empty(), all);
    assert(Seq::<u8>::empty() + data =~= data);
    let lines = lines_of(data);
    lemma_refs_on_lines(all, 1);
    lemma_ref_body(all[0]);
    assert(lines[0] == ref_body(all[0]));
    lemma_ref_lines_cons(all[0], refs);
    reveal_strlit("0000");
    assert(data.len() > 4);
    assert(flush_pkt().len() == 4);
    assert(seq![all[0]] + all.subrange(1, all.len() as int) =~= all);
}

/// Whether each reference fits in a pkt-line.
pub open spec fn refs_fit(refs: Seq<(Seq<u8>, Seq<u8>)>) -> bool {
    forall|i: int|
        0 <= i < refs.len() ==> (#[trigger] refs[i]).0.len() + refs[i].1.len() + 2
            <= MAX_PKT_PAYLOAD
}

/// Appends the line of one reference.
fn push_ref_line(out: &mut Vec<u8>, id: &[u8], name: &[u8])
    requires
        id@.len() + name@.len() + 2 <= MAX_PKT_PAYLOAD,
    ensures
        final(out)@ == old(out)@ + ref_body((id@, name@)) + seq![10u8],
{
    let mut payload = copy_range(id, 0, id.len());
    payload.push(32u8);
    push_all(&mut payload, name);
    payload.push(10u8);
    push_pkt_line(out, payload.as_slice());
    assert(out@ =~= old(out)@ + ref_body((id@, name@)) + seq![10u8]);
}

/// Executable `head_target`.
fn find_head(refs: &Vec<(Vec<u8>, Vec<u8>)>, head_ref: &[u8]) -> (r: Option<usize>)
    ensures
        match r {
            Some(i) => i < refs@.len() && head_target(pairs(refs@), head_ref@, 0) == Some(
                refs@[i as int].0@,
            ),
            None => head_target(pairs(refs@), head_ref@, 0) is None,
        },
{
    let mut i: usize = 0;
    while i < refs.len()
        invariant
            i <= refs@.len(),
            head_target(pairs(refs@), head_ref@, 0) == head_target(
                pairs(refs@),
                head_ref@,
                i as int,
            ),
        decreases refs@.len() - i,
    {
        if bytes_eq(refs[i].1.as_slice(), head_ref) {
            return Some(i);
        }
        i = i + 1;
    }
    None
}

/// The references to advertise: the entry for `HEAD`, when it resolves, and
/// then `refs`.
fn full_list(refs: &Vec<(Vec<u8>, Vec<u8>)>, head_ref: &[u8]) -> (r: Vec<(Vec<u8>, Vec<u8>)>)
    ensures
        pairs(r@) == advertised_refs(pairs(refs@), head_ref@),
{
    let mut all: Vec<(Vec<u8>, Vec<u8>)> = Vec::new();
    proof {
        reveal_strlit("HEAD");
    }
    match find_head(refs, head_ref) {
        Some(h) => {
            all.push((refs[h].0.clone(), bytes_of("HEAD")));
        },
        None => {},
    }
    let ghost head = pairs(all@);
    let ghost rv = pairs(refs@);
    let mut i: usize = 0;
    proof {
        assert(head + rv.subrange(0, 0) =~= head);
    }
    while i < refs.len()
        invariant
            i <= refs@.len(),
            rv == pairs(refs@),
            pairs(all@) == head + rv.subrange(0, i as int),
        decreases refs@.len() - i,
    {
        let ghost before = pairs(all@);
        all.push((refs[i].0.clone(), refs[i].1.clone()));
        proof {
            assert(pairs(all@) =~= before.push(rv[i as int]));
            assert(head + rv.subrange(0, i as int + 1) =~= before.push(rv[i as int]));
        }
        i = i + 1;
    }
    proof {
        assert(rv.subrange(0, refs@.len() as int) =~= rv);
        match head_target(rv, head_ref@, 0) {
            Some(id) => {
                assert(head =~= seq![(id, head_name())]);
            },
            None => {
                assert(head =~= Seq::<(Seq<u8>, Seq<u8>)>::empty());
                assert(head + rv =~= rv);
            },
        }
    }
    all
}

/// Executable `refs_fit`.
fn all_fit(all: &Vec<(Vec<u8>, Vec<u8>)>) -> (r: bool)
    ensures
        r == refs_fit(pairs(all@)),
{
    let ghost rv = pairs(all@);
    let mut k: usize = 0;
    while k < all.len()
        invariant
            k <= all@.len(),
            rv == pairs(all@),
            forall|i: int|
                0 <= i < k ==> (#[trigger] rv[i]).0.len() + rv[i].1.len() + 2 <= MAX_PKT_PAYLOAD,
        decreases all@.len() - k,
    {
        if all[k].0.len() > MAX_PKT_PAYLOAD || all[k].1.len() > MAX_PKT_PAYLOAD - all[k].0.len()
            || all[k].0.len() + all[k].1.len() > MAX_PKT_PAYLOAD - 2 {
            assert(!(rv[k as int].0.len() + rv[k as int].1.len() + 2 <= MAX_PKT_PAYLOAD));
            return false;
        }
        k = k + 1;
    }
    true
}

/// The advertisement of the given references.
fn advertise(all: &Vec<(Vec<u8>, Vec<u8>)>) -> (r: (Vec<u8>, Vec<Vec<u8>>))
    requires
        refs_fit(pairs(all@)),
    ensures
        r.0@ == advertisement(pairs(all@)),
        seqs(r.1@) == firsts(pairs(all@)),
{
    let ghost rv = pairs(all@);
    let mut out: Vec<u8> = Vec::new();
    let mut ids: Vec<Vec<u8>> = Vec::new();
    let mut i: usize = 0;
    proof {
        assert(rv.subrange(0, 0) =~= Seq::<(Seq<u8>, Seq<u8>)>::empty());
        assert(seqs(ids@) =~= firsts(rv.subrange(0, 0)));
    }
    while i < all.len()
        invariant
            i <= all@.len(),
            rv == pairs(all@),
            refs_fit(rv),
            out@ == ref_lines(rv.subrange(0, i as int)),
            seqs(ids@) == firsts(rv.subrange(0, i as int)),
        decreases all@.len() - i,
    {
        let ghost before = rv.subrange(0, i as int);
        let ghost ids_before = seqs(ids@);
        assert(rv[i as int].0.len() + rv[i as int].1.len() + 2 <= MAX_PKT_PAYLOAD);
        push_ref_line(&mut out, all[i].0.as_slice(), all[i].1.as_slice());
        ids.push(all[i].0.clone());
        proof {
            let after = rv.subrange(0, i as int + 1);
            assert(after =~= before.push(rv[i as int]));
            assert(after.drop_last() =~= before);
            assert(seqs(ids@) =~= ids_before.push(rv[i as int].0));
            assert(seqs(ids@) =~= firsts(after));
        }
        i = i + 1;
    }
    proof {
        assert(rv.subrange(0, all@.len() as int) =~= rv);
    }
    push_flush(&mut out);
    (out, ids)
}

/// The reference advertisement of a repository whose references are `refs`,
/// pairs of id and name, and whose `HEAD` points at the reference named
/// `head_ref`: the bytes to send and the ids advertised, in order. Fails
/// with `InvalidArgumentError` exactly when one of the references to
/// advertise does not fit in a pkt-line.
pub fn ref_discovery(refs: &Vec<(Vec<u8>, Vec<u8>)>, head_ref: &[u8]) -> (r: Result<
    (Vec<u8>, Vec<Vec<u8>>),
    GitrError,
>)
    ensures
        match r {
            Ok((bytes, ids)) => {
                &&& refs_fit(advertised_refs(pairs(refs@), head_ref@))
                &&& bytes@ == advertisement(advertised_refs(pairs(refs@), head_ref@))
                &&& seqs(ids@) == firsts(advertised_refs(pairs(refs@), head_ref@))
            },
            Err(e) => !refs_fit(advertised_refs(pairs(refs@), head_ref@)) && e
                == GitrError::InvalidArgumentError,
        },
{
    let all = full_list(refs, head_ref);
    if !all_fit(&all) {
        return Err(GitrError::InvalidArgumentError);
    }
    Ok(advertise(&all))
}

/// A line that names an id: a pkt-line that holds `word`, the id, and a line feed.
pub open spec fn id_line(word: Seq<u8>, id: Seq<u8>) -> Seq<u8> {
    pkt_line(word + id + seq![10u8])
}

/// A line for each of `ids`, one after the other.
pub open spec fn id_lines(word: Seq<u8>, ids: Seq<Seq<u8>>) -> Seq<u8>
    decreases ids.len(),
{
    if ids.len() == 0 {
        Seq::empty()
    } else {
        id_lines(word, ids.drop_last()) + id_line(word, ids.last())
    }
}

/// The ids of `references` that are not among `client`, in order, each as
/// often as it is advertised.
pub open spec fn missing(references: Seq<(Seq<u8>, Seq<u8>)>, client: Seq<Seq<u8>>) -> Seq<
    Seq<u8>,
>
    decreases references.len(),
{
    if references.len() == 0 {
        Seq::empty()
    } else if client.contains(references.last().0) {
        missing(references.drop_last(), client)
    } else {
        missing(references.drop_last(), client).push(references.last().0)
    }
}

/// With nothing on the client's side, every advertised id is missing.
pub proof fn lemma_missing_all(references: Seq<(Seq<u8>, Seq<u8>)>)
    ensures
        missing(references, Seq::empty()) == firsts(references),
    decreases references.len(),
{
    if references.len() == 0 {
        assert(firsts(references) =~= Seq::<Seq<u8>>::empty());
    } else {
        lemma_missing_all(references.drop_last());
        assert(firsts(references) =~= firsts(references.drop_last()).push(references.last().0));
    }
}

/// The word that starts a line asking for an object.
pub open spec fn word_want() -> Seq<u8> {
    ascii("want "@)
}

/// The word that starts a line naming an object that is there already.
pub open spec fn word_have() -> Seq<u8> {
    ascii("have "@)
}

/// Whether each of `ids` fits in a line that names it.
pub open spec fn ids_fit(ids: Seq<Seq<u8>>) -> bool {
    forall|i: int| 0 <= i < ids.len() ==> (#[trigger] ids[i]).len() + 6 <= MAX_PKT_PAYLOAD
}

/// The message with which a fetch asks for what it misses: a `want` line
/// for each missing id and a flush marker; and, unless nothing is missing,
/// a `have` line for each object that the client has, a flush marker, and a
/// `done` line.
pub open spec fn want_message(
    references: Seq<(Seq<u8>, Seq<u8>)>,
    client_commits: Seq<Seq<u8>>,
    client_objects: Seq<Seq<u8>>,
) -> Seq<u8> {
    let wanted = missing(references, client_commits);
    if wanted.len() == 0 {
        flush_pkt()
    } else {
        id_lines(word_want(), wanted) + flush_pkt() + id_lines(word_have(), client_objects)
            + flush_pkt() + pkt_line(ascii("done\n"@))
    }
}

/// Appends a line for each of `ids`.
fn push_id_lines(out: &mut Vec<u8>, word: &[u8], ids: &Vec<Vec<u8>>)
    requires
        word@.len() == 5,
        ids_fit(seqs(ids@)),
    ensures
        final(out)@ == old(out)@ + id_lines(word@, seqs(ids@)),
{
    let ghost all = seqs(ids@);
    let mut i: usize = 0;
    proof {
        assert(all.subrange(0, 0) =~= Seq::<Seq<u8>>::empty());
        assert(out@ =~= old(out)@ + id_lines(word@, all.subrange(0, 0)));
    }
    while i < ids.len()
        invariant
            i <= ids@.len(),
            all == seqs(ids@),
            ids_fit(all),
            word@.len() == 5,
            out@ == old(out)@ + id_lines(word@, all.subrange(0, i as int)),
        decreases ids@.len() - i,
    {
        assert(all[i as int].len() + 6 <= MAX_PKT_PAYLOAD);
        let mut payload = copy_range(word, 0, word.len());
        push_all(&mut payload, ids[i].as_slice());
        payload.push(10u8);
        assert(payload@ =~= word@ + all[i as int] + seq![10u8]);
        push_pkt_line(out, payload.as_slice());
        proof {
            let after = all.subrange(0, i as int + 1);
            assert(after.drop_last() =~= all.subrange(0, i as int));
            assert(after.last() == all[i as int]);
            assert(out@ =~= old(out)@ + id_lines(word@, after));
        }
        i = i + 1;
    }
    proof {
        assert(all.subrange(0, ids@.len() as int) =~= all);
    }
}

/// Executable `ids_fit`.
fn check_ids_fit(ids: &Vec<Vec<u8>>) -> (r: bool)
    ensures
        r == ids_fit(seqs(ids@)),
{
    let mut i: usize = 0;
    while i < ids.len()
        invariant
            i <= ids@.len(),
            forall|j: int| 0 <= j < i ==> (#[trigger] seqs(ids@)[j]).len() + 6 <= MAX_PKT_PAYLOAD,
        decreases ids@.len() - i,
    {
        if ids[i].len() > MAX_PKT_PAYLOAD - 6 {
            assert(!(seqs(ids@)[i as int].len() + 6 <= MAX_PKT_PAYLOAD));
            return false;
        }
        i = i + 1;
    }
    true
}

/// Executable `missing`.
fn missing_ids(references: &Vec<(Vec<u8>, Vec<u8>)>, client_commits: &Vec<Vec<u8>>) -> (r: Vec<
    Vec<u8>,
>)
    ensures
        seqs(r@) == missing(pairs(references@), seqs(client_commits@)),
{
    let ghost rv = pairs(references@);
    let ghost cv = seqs(client_commits@);
    let mut out: Vec<Vec<u8>> = Vec::new();
    let mut i: usize = 0;
    proof {
        assert(rv.subrange(0, 0) =~= Seq::<(Seq<u8>, Seq<u8>)>::empty());
        assert(seqs(out@) =~= missing(rv.subrange(0, 0), cv));
    }
    while i < references.len()
        invariant
            i <= references@.len(),
            rv == pairs(references@),
            cv == seqs(client_commits@),
            seqs(out@) == missing(rv.subrange(0, i as int), cv),
        decreases references@.len() - i,
    {
        let ghost before = seqs(out@);
        let ghost after = rv.subrange(0, i as int + 1);
        proof {
            assert(after.drop_last() =~= rv.subrange(0, i as int));
            assert(after.last() == rv[i as int]);
        }
        if !list_contains(client_commits, references[i].0.as_slice()) {
            out.push(references[i].0.clone());
            assert(seqs(out@) =~= before.push(rv[i as int].0));
        }
        i = i + 1;
    }
    proof {
        assert(rv.subrange(0, references@.len() as int) =~= rv);
    }
    out
}

/// The message with which a fetch asks for what it misses. `references`
/// are the advertised pairs of id and name, `client_commits` the ids that
/// the client's own references point at, `client_objects` the ids of all
/// objects that the client has. Fails with `InvalidArgumentError` exactly
/// when something is missing and one of the ids to name does not fit in a
/// pkt-line.
pub fn assemble_want_message(
    references: &Vec<(Vec<u8>, Vec<u8>)>,
    client_commits: Vec<Vec<u8>>,
    client_objects: &Vec<Vec<u8>>,
) -> (r: Result<Vec<u8>, GitrError>)
    ensures
        ({
            let wanted = missing(pairs(references@), seqs(client_commits@));
            let fit = wanted.len() == 0 || (ids_fit(wanted) && ids_fit(seqs(client_objects@)));
            match r {
                Ok(message) => fit && message@ == want_message(
                    pairs(references@),
                    seqs(client_commits@),
                    seqs(client_objects@),
                ),
                Err(e) => !fit && e == GitrError::InvalidArgumentError,
            }
        }),
{
    let wanted = missing_ids(references, &client_commits);
    let mut out: Vec<u8> = Vec::new();
    if wanted.len() == 0 {
        push_flush(&mut out);
        assert(out@ =~= flush_pkt());
        return Ok(out);
    }
    if !check_ids_fit(&wanted) || !check_ids_fit(client_objects) {
        return Err(GitrError::InvalidArgumentError);
    }
    proof {
        reveal_strlit("want ");
        reveal_strlit("have ");
        reveal_strlit("done\n");
    }
    push_id_lines(&mut out, bytes_of("want ").as_slice(), &wanted);
    push_flush(&mut out);
    push_id_lines(&mut out, bytes_of("have ").as_slice(), client_objects);
    push_flush(&mut out);
    push_pkt_line(&mut out, bytes_of("done\n").as_slice());
    assert(out@ =~= want_message(
        pairs(references@),
        seqs(client_commits@),
        seqs(client_objects@),
    ));
    Ok(out)
}

/// What is advertised, read back and answered from an empty repository,
/// asks for every advertised id: the message holds a `want` line for each
/// advertised reference, in order.
pub proof fn lemma_wants_every_advertised(id: Seq<u8>, refs: Seq<(Seq<u8>, Seq<u8>)>)
    requires
        ref_ok((id, head_name())),
        forall|k: int| 0 <= k < refs.len() ==> ref_ok(#[trigger] refs[k]),
    ensures
        want_message(
            discovered(advertisement(seq![(id, head_name())] + refs)),
            Seq::empty(),
            Seq::empty(),
        ) == id_lines(word_want(), firsts(seq![(id, head_name())] + refs)) + flush_pkt()
            + flush_pkt() + pkt_line(ascii("done\n"@)),
{
    let all = seq![(id, head_name())] + refs;
    lemma_discover_advertised(id, refs);
    lemma_missing_all(all);
    assert(firsts(all).len() > 0);
    assert(id_lines(word_have(), Seq::empty()) =~= Seq::<u8>::empty());
    assert(id_lines(word_want(), firsts(all)) + flush_pkt() + Seq::<u8>::empty() + flush_pkt()
        =~= id_lines(word_want(), firsts(all)) + flush_pkt() + flush_pkt());
}

/// The id that stands for "no object": forty zeros.
pub open spec fn null_id() -> Seq<u8> {
    ascii("0000000000000000000000000000000000000000"@)
}

/// The full name of a reference: `refs/`, the folder (`heads` or `tags`), a
/// slash, and the name.
pub open spec fn full_name(carpeta: Seq<u8>, name: Seq<u8>) -> Seq<u8> {
    ascii("refs/"@) + carpeta + seq![47u8] + name
}

/// One update of a push: the id that the other side advertised for the
/// reference, the id that it shall get, and the full name of the reference.
pub struct RefUpdate {
    pub old: Seq<u8>,
    pub new: Seq<u8>,
    pub name: Seq<u8>,
}

/// The update that a push asks for a local reference: none when the other
/// side advertised the same id for it; from the advertised id to the local
/// one when it advertised another; from the marker for "no object" when it
/// did not advertise the reference.
pub open spec fn update_for(
    server: Seq<(Seq<u8>, Seq<u8>)>,
    carpeta: Seq<u8>,
    name: Seq<u8>,
    id: Seq<u8>,
) -> Option<RefUpdate> {
    match head_target(server, full_name(carpeta, name), 0) {
        Some(old) => if old != id {
            Some(RefUpdate { old, new: id, name: full_name(carpeta, name) })
        } else {
            None
        },
        None => Some(RefUpdate { old: null_id(), new: id, name: full_name(carpeta, name) }),
    }
}

/// Whether a push has to bring along the objects of a local reference: the
/// other side advertised another id for it, or did not advertise the
/// reference and advertised the id for no other either.
pub open spec fn brings_objects(
    server: Seq<(Seq<u8>, Seq<u8>)>,
    carpeta: Seq<u8>,
    name: Seq<u8>,
    id: Seq<u8>,
) -> bool {
    match head_target(server, full_name(carpeta, name), 0) {
        Some(old) => old != id,
        None => !firsts(server).contains(id),
    }
}

/// The line of an update: a pkt-line that holds the old id, the new id and
/// the name, with spaces between them and a line feed at the end.
pub open spec fn update_line(u: RefUpdate) -> Seq<u8> {
    pkt_line(u.old + seq![32u8] + u.new + seq![32u8] + u.name + seq![10u8])
}

/// The line of an update that is asked for, and nothing otherwise.
pub open spec fn update_text(u: Option<RefUpdate>) -> Seq<u8> {
    match u {
        Some(u) => update_line(u),
        None => Seq::empty(),
    }
}

/// Whether the line of an update, if one is asked for, fits in a pkt-line.
pub open spec fn update_fits(u: Option<RefUpdate>) -> bool {
    match u {
        Some(u) => u.old.len() + u.new.len() + u.name.len() + 3 <= MAX_PKT_PAYLOAD,
        None => true,
    }
}

/// Executable `full_name`.
fn build_full_name(carpeta: &[u8], name: &[u8]) -> (r: Vec<u8>)
    ensures
        r@ == full_name(carpeta@, name@),
{
    proof {
        reveal_strlit("refs/");
    }
    let mut out = bytes_of("refs/");
    push_all(&mut out, carpeta);
    out.push(47u8);
    push_all(&mut out, name);
    assert(out@ =~= full_name(carpeta@, name@));
    out
}

/// Looks at one local reference, `refer` (its name and its id), in the
/// folder `carpeta`: adds to `request` the line of the update that a push
/// asks for it, if any, and to `pkt_ids` its id when its objects have to be
/// brought along. Fails with `InvalidArgumentError`, leaving both as they
/// were, exactly when the line does not fit in a pkt-line.
pub fn analizar_ref(
    hash_n_references: &Vec<(Vec<u8>, Vec<u8>)>,
    refer: (&[u8], &[u8]),
    pkt_ids: &mut Vec<Vec<u8>>,
    request: &mut Vec<u8>,
    carpeta: &[u8],
) -> (r: Result<(), GitrError>)
    ensures
        ({
            let server = pairs(hash_n_references@);
            let update = update_for(server, carpeta@, refer.0@, refer.1@);
            match r {
                Ok(_) => {
                    &&& update_fits(update)
                    &&& final(request)@ == old(request)@ + update_text(update)
                    &&& seqs(final(pkt_ids)@) == if brings_objects(
                        server,
                        carpeta@,
                        refer.0@,
                        refer.1@,
                    ) {
                        seqs(old(pkt_ids)@).push(refer.1@)
                    } else {
                        seqs(old(pkt_ids)@)
                    }
                },
                Err(e) => {
                    &&& !update_fits(update)
                    &&& e == GitrError::InvalidArgumentError
                    &&& final(request)@ == old(request)@
                    &&& final(pkt_ids)@ == old(pkt_ids)@
                },
            }
        }),
{
    let name = refer.0;
    let id = refer.1;
    let full = build_full_name(carpeta, name);
    proof {
        reveal_strlit("0000000000000000000000000000000000000000");
    }
    let (old_id, bring, send) = match find_head(hash_n_references, full.as_slice()) {
        Some(i) => {
            let differs = !bytes_eq(hash_n_references[i].0.as_slice(), id);
            (hash_n_references[i].0.clone(), differs, differs)
        },
        None => {
            let ids = first_parts(hash_n_references);
            (
                bytes_of("0000000000000000000000000000000000000000"),
                !list_contains(&ids, id),
                true,
            )
        },
    };
    if send {
        if old_id.len() > MAX_PKT_PAYLOAD || id.len() > MAX_PKT_PAYLOAD || full.len()
            > MAX_PKT_PAYLOAD || old_id.len() + id.len() + full.len() + 3 > MAX_PKT_PAYLOAD {
            return Err(GitrError::InvalidArgumentError);
        }
        let mut payload: Vec<u8> = Vec::new();
        push_all(&mut payload, old_id.as_slice());
        payload.push(32u8);
        push_all(&mut payload, id);
        payload.push(32u8);
        push_all(&mut payload, full.as_slice());
        payload.push(10u8);
        assert(payload@ =~= old_id@ + seq![32u8] + id@ + seq![32u8] + full@ + seq![10u8]);
        push_pkt_line(request, payload.as_slice());
    } else {
        assert(request@ =~= old(request)@ + Seq::<u8>::empty());
    }
    if bring {
        let ghost before = seqs(pkt_ids@);
        pkt_ids.push(copy_range(id, 0, id.len()));
        assert(id@.subrange(0, id@.len() as int) =~= id@);
        assert(seqs(pkt_ids@) =~= before.push(id@));
    }
    Ok(())
}

/// The ids of a list of references.
fn first_parts(refs: &Vec<(Vec<u8>, Vec<u8>)>) -> (r: Vec<Vec<u8>>)
    ensures
        seqs(r@) == firsts(pairs(refs@)),
{
    let mut out: Vec<Vec<u8>> = Vec::new();
    let mut i: usize = 0;
    while i < refs.len()
        invariant
            i <= refs@.len(),
            out@.len() == i,
            forall|k: int| 0 <= k < i ==> (#[trigger] out@[k])@ == refs@[k].0@,
        decreases refs@.len() - i,
    {
        out.push(refs[i].0.clone());
        i = i + 1;
    }
    assert(seqs(out@) =~= firsts(pairs(refs@)));
    out
}

/// The lines of the updates that a push asks for the first `n` of the local
/// references of one folder.
pub open spec fn updates_text(
    server: Seq<(Seq<u8>, Seq<u8>)>,
    carpeta: Seq<u8>,
    ids: Seq<Seq<u8>>,
    names: Seq<Seq<u8>>,
    n: int,
) -> Seq<u8>
    decreases n,
{
    if n <= 0 {
        Seq::empty()
    } else {
        updates_text(server, carpeta, ids, names, n - 1) + update_text(
            update_for(server, carpeta, names[n - 1], ids[n - 1]),
        )
    }
}

/// The ids whose objects a push has to bring along for the first `n` of the
/// local references of one folder.
pub open spec fn pack_ids(
    server: Seq<(Seq<u8>, Seq<u8>)>,
    carpeta: Seq<u8>,
    ids: Seq<Seq<u8>>,
    names: Seq<Seq<u8>>,
    n: int,
) -> Seq<Seq<u8>>
    decreases n,
{
    if n <= 0 {
        Seq::empty()
    } else if brings_objects(server, carpeta, names[n - 1], ids[n - 1]) {
        pack_ids(server, carpeta, ids, names, n - 1).push(ids[n - 1])
    } else {
        pack_ids(server, carpeta, ids, names, n - 1)
    }
}

/// Whether the updates of all local references of one folder fit in pkt-lines.
pub open spec fn updates_fit(
    server: Seq<(Seq<u8>, Seq<u8>)>,
    carpeta: Seq<u8>,
    ids: Seq<Seq<u8>>,
    names: Seq<Seq<u8>>,
) -> bool {
    forall|k: int|
        0 <= k < names.len() ==> update_fits(
            update_for(server, carpeta, #[trigger] names[k], ids[k]),
        )
}

/// Looks at the local references of one folder in turn.
fn analizar_carpeta(
    hash_n_references: &Vec<(Vec<u8>, Vec<u8>)>,
    ids: &Vec<Vec<u8>>,
    names: &Vec<Vec<u8>>,
    pkt_ids: &mut Vec<Vec<u8>>,
    request: &mut Vec<u8>,
    carpeta: &[u8],
) -> (r: Result<(), GitrError>)
    requires
        ids@.len() == names@.len(),
    ensures
        ({
            let server = pairs(hash_n_references@);
            match r {
                Ok(_) => {
                    &&& updates_fit(server, carpeta@, seqs(ids@), seqs(names@))
                    &&& final(request)@ == old(request)@ + updates_text(
                        server,
                        carpeta@,
                        seqs(ids@),
                        seqs(names@),
                        names@.len() as int,
                    )
                    &&& seqs(final(pkt_ids)@) == seqs(old(pkt_ids)@) + pack_ids(
                        server,
                        carpeta@,
                        seqs(ids@),
                        seqs(names@),
                        names@.len() as int,
                    )
                },
                Err(e) => !updates_fit(server, carpeta@, seqs(ids@), seqs(names@)) && e
                    == GitrError::InvalidArgumentError,
            }
        }),
{
    let ghost server = pairs(hash_n_references@);
    let ghost iv = seqs(ids@);
    let ghost nv = seqs(names@);
    let mut j: usize = 0;
    proof {
        assert(request@ =~= old(request)@ + updates_text(server, carpeta@, iv, nv, 0));
        assert(seqs(pkt_ids@) =~= seqs(old(pkt_ids)@) + pack_ids(server, carpeta@, iv, nv, 0));
    }
    while j < names.len()
        invariant
            j <= names@.len() == ids@.len(),
            server == pairs(hash_n_references@),
            iv == seqs(ids@),
            nv == seqs(names@),
            forall|k: int|
                0 <= k < j ==> update_fits(update_for(server, carpeta@, #[trigger] nv[k], iv[k])),
            request@ == old(request)@ + updates_text(server, carpeta@, iv, nv, j as int),
            seqs(pkt_ids@) == seqs(old(pkt_ids)@) + pack_ids(server, carpeta@, iv, nv, j as int),
        decreases names@.len() - j,
    {
        let ghost req_before = request@;
        let ghost ids_before = seqs(pkt_ids@);
        assert(nv[j as int] == names@[j as int]@ && iv[j as int] == ids@[j as int]@);
        match analizar_ref(
            hash_n_references,
            (names[j].as_slice(), ids[j].as_slice()),
            pkt_ids,
            request,
            carpeta,
        ) {
            Ok(_) => {},
            Err(e) => {
                assert(!update_fits(update_for(server, carpeta@, nv[j as int], iv[j as int])));
                return Err(e);
            },
        }
        proof {
            assert(request@ =~= old(request)@ + updates_text(server, carpeta@, iv, nv, j + 1));
            assert(seqs(pkt_ids@) =~= seqs(old(pkt_ids)@) + pack_ids(
                server,
                carpeta@,
                iv,
                nv,
                j + 1,
            ));
        }
        j = j + 1;
    }
    Ok(())
}

/// The request with which a push asks the other side to update its
/// references: for each local branch and then each local tag whose id is
/// not the one advertised for it, a line with the advertised id (the marker
/// for "no object" when there is none), the local id and the full name; and
/// a flush marker. With it, whether objects have to be sent, and the ids
/// whose objects have to be brought along. `heads_n_tags_ids` holds the ids
/// of the local branches and tags, `heads_n_tags_refs` their names. Fails
/// with `InvalidArgumentError` when ids and names do not pair up or when a
/// line does not fit in a pkt-line.
pub fn reference_update_request(
    hash_n_references: Vec<(Vec<u8>, Vec<u8>)>,
    heads_n_tags_ids: (Vec<Vec<u8>>, Vec<Vec<u8>>),
    heads_n_tags_refs: (Vec<Vec<u8>>, Vec<Vec<u8>>),
) -> (r: Result<(Vec<u8>, bool, Vec<Vec<u8>>), GitrError>)
    ensures
        ({
            let server = pairs(hash_n_references@);
            let heads = ascii("heads"@);
            let tags = ascii("tags"@);
            let h_ids = seqs(heads_n_tags_ids.0@);
            let t_ids = seqs(heads_n_tags_ids.1@);
            let h_names = seqs(heads_n_tags_refs.0@);
            let t_names = seqs(heads_n_tags_refs.1@);
            let paired = h_ids.len() == h_names.len() && t_ids.len() == t_names.len();
            match r {
                Ok((request, pkt_needed, pkt_ids)) => {
                    &&& paired
                    &&& request@ == updates_text(server, heads, h_ids, h_names, h_names.len() as int)
                        + updates_text(server, tags, t_ids, t_names, t_names.len() as int)
                        + flush_pkt()
                    &&& seqs(pkt_ids@) == pack_ids(server, heads, h_ids, h_names, h_names.len() as int)
                        + pack_ids(server, tags, t_ids, t_names, t_names.len() as int)
                    &&& pkt_needed == (pkt_ids@.len() > 0)
                },
                Err(e) => e == GitrError::InvalidArgumentError && (!paired || !updates_fit(
                    server,
                    heads,
                    h_ids,
                    h_names,
                ) || !updates_fit(server, tags, t_ids, t_names)),
            }
        }),
{
    if heads_n_tags_ids.0.len() != heads_n_tags_refs.0.len() || heads_n_tags_ids.1.len()
        != heads_n_tags_refs.1.len() {
        return Err(GitrError::InvalidArgumentError);
    }
    proof {
        reveal_strlit("heads");
        reveal_strlit("tags");
    }
    let mut request: Vec<u8> = Vec::new();
    let mut pkt_ids: Vec<Vec<u8>> = Vec::new();
    match analizar_carpeta(
        &hash_n_references,
        &heads_n_tags_ids.0,
        &heads_n_tags_refs.0,
        &mut pkt_ids,
        &mut request,
        bytes_of("heads").as_slice(),
    ) {
        Ok(_) => {},
        Err(e) => {
            return Err(e);
        },
    }
    match analizar_carpeta(
        &hash_n_references,
        &heads_n_tags_ids.1,
        &heads_n_tags_refs.1,
        &mut pkt_ids,
        &mut request,
        bytes_of("tags").as_slice(),
    ) {
        Ok(_) => {},
        Err(e) => {
            return Err(e);
        },
    }
    push_flush(&mut request);
    let needed = pkt_ids.len() > 0;
    proof {
        let server = pairs(hash_n_references@);
        let e = Seq::<u8>::empty();
        assert(request@ =~= updates_text(
            server,
            ascii("heads"@),
            seqs(heads_n_tags_ids.0@),
            seqs(heads_n_tags_refs.0@),
            heads_n_tags_refs.0@.len() as int,
        ) + updates_text(
            server,
            ascii("tags"@),
            seqs(heads_n_tags_ids.1@),
            seqs(heads_n_tags_refs.1@),
            heads_n_tags_refs.1@.len() as int,
        ) + flush_pkt());
        assert(seqs(pkt_ids@) =~= pack_ids(
            server,
            ascii("heads"@),
            seqs(heads_n_tags_ids.0@),
            seqs(heads_n_tags_refs.0@),
            heads_n_tags_refs.0@.len() as int,
        ) + pack_ids(
            server,
            ascii("tags"@),
            seqs(heads_n_tags_ids.1@),
            seqs(heads_n_tags_refs.1@),
            heads_n_tags_refs.1@.len() as int,
        ));
    }
    Ok((request, needed, pkt_ids))
}

/// Where the first of the local branches `heads_refs` with full name
/// `full` stands, from `from` on, or their number when there is none.
pub open spec fn local_head(heads_refs: Seq<Seq<u8>>, full: Seq<u8>, from: int) -> int
    decreases heads_refs.len() - from,
{
    if from < 0 || from >= heads_refs.len() {
        heads_refs.len() as int
    } else if full_name(ascii("heads"@), heads_refs[from]) == full {
        from
    } else {
        local_head(heads_refs, full, from + 1)
    }
}

/// Whether a push may go ahead as far as one advertised reference goes: it
/// is `HEAD`, or no local branch has its name, or the local branch points
/// at the advertised id or at something from which that id is reached over
/// history, so that nothing that the other side has is lost.
pub open spec fn push_allowed(
    advertised: (Seq<u8>, Seq<u8>),
    heads_ids: Seq<Seq<u8>>,
    heads_refs: Seq<Seq<u8>>,
    store: Seq<(Seq<u8>, Seq<u8>)>,
) -> bool {
    let j = local_head(heads_refs, advertised.1, 0);
    advertised.1 == head_name() || j >= heads_refs.len() || j >= heads_ids.len() || advertised.0
        == heads_ids[j] || reaches(store, heads_ids[j], advertised.0)
}

/// Checks that a push loses nothing that the other side has: `Ok` when it
/// may go ahead as far as every advertised reference goes, `PushError`
/// otherwise.
pub fn check_push(
    hash_n_references: Vec<(Vec<u8>, Vec<u8>)>,
    heads_ids: Vec<Vec<u8>>,
    heads_refs: Vec<Vec<u8>>,
    store: &ObjectStore,
) -> (r: Result<(), GitrError>)
    ensures
        ({
            let all = forall|i: int|
                0 <= i < hash_n_references@.len() ==> push_allowed(
                    #[trigger] pairs(hash_n_references@)[i],
                    seqs(heads_ids@),
                    seqs(heads_refs@),
                    store@,
                );
            match r {
                Ok(_) => all,
                Err(e) => !all && e == GitrError::PushError,
            }
        }),
{
    let ghost server = pairs(hash_n_references@);
    let ghost iv = seqs(heads_ids@);
    let ghost nv = seqs(heads_refs@);
    let mut i: usize = 0;
    while i < hash_n_references.len()
        invariant
            i <= hash_n_references@.len(),
            server == pairs(hash_n_references@),
            iv == seqs(heads_ids@),
            nv == seqs(heads_refs@),
            forall|k: int| 0 <= k < i ==> push_allowed(#[trigger] server[k], iv, nv, store@),
        decreases hash_n_references@.len() - i,
    {
        proof {
            reveal_strlit("HEAD");
            reveal_strlit("heads");
        }
        let name = hash_n_references[i].1.as_slice();
        let id = hash_n_references[i].0.as_slice();
        assert(server[i as int] == (id@, name@));
        if !bytes_eq(name, bytes_of("HEAD").as_slice()) {
            let mut j: usize = 0;
            while j < heads_refs.len()
                invariant_except_break
                    local_head(nv, name@, 0) == local_head(nv, name@, j as int),
                invariant
                    j <= heads_refs@.len(),
                    nv == seqs(heads_refs@),
                ensures
                    j == local_head(nv, name@, 0),
                decreases heads_refs@.len() - j,
            {
                proof {
                    reveal_strlit("heads");
                }
                let full = build_full_name(bytes_of("heads").as_slice(), heads_refs[j].as_slice());
                assert(nv[j as int] == heads_refs@[j as int]@);
                if bytes_eq(full.as_slice(), name) {
                    break ;
                }
                j = j + 1;
            }
            if j < heads_refs.len() && j < heads_ids.len() {
                assert(iv[j as int] == heads_ids@[j as int]@);
                if !bytes_eq(id, heads_ids[j].as_slice()) && !is_parent(
                    heads_ids[j].clone(),
                    copy_range(id, 0, id.len()),
                    store,
                ) {
                    proof {
                        assert(id@.subrange(0, id@.len() as int) =~= id@);
                        assert(!push_allowed(server[i as int], iv, nv, store@));
                    }
                    return Err(GitrError::PushError);
                }
                proof {
                    assert(id@.subrange(0, id@.len() as int) =~= id@);
                }
            }
        }
        i = i + 1;
    }
    Ok(())
}

/// The request that opens an exchange: a pkt-line that holds the command,
/// a space, a slash and the name of the repository, a NUL, `host=` and the
/// host, and a NUL.
pub open spec fn handshake_line(orden: Seq<u8>, host: Seq<u8>, name: Seq<u8>) -> Seq<u8> {
    pkt_line(orden + seq![32u8, 47u8] + name + seq![0u8] + ascii("host="@) + host + seq![0u8])
}

/// Makes the request that opens an exchange with the remote `remote`, which
/// is a host and the name of a repository with a slash between them: the
/// host to connect to and the bytes to send. `InvalidArgumentError` when
/// the remote is not of that form or the request does not fit in a pkt-line.
pub fn handshake(orden: &[u8], remote: &[u8]) -> (r: Result<(Vec<u8>, Vec<u8>), GitrError>)
    ensures
        ({
            let parts = split_on(remote@, 47);
            let fits = parts.len() == 2 && orden@.len() + parts[0].len() + parts[1].len() + 9
                <= MAX_PKT_PAYLOAD;
            match r {
                Ok((host, message)) => fits && host@ == parts[0] && message@ == handshake_line(
                    orden@,
                    parts[0],
                    parts[1],
                ),
                Err(e) => !fits && e == GitrError::InvalidArgumentError,
            }
        }),
{
    let url_n_name = split(remote, 47u8);
    if url_n_name.len() != 2 {
        return Err(GitrError::InvalidArgumentError);
    }
    assert(seqs(url_n_name@)[0] == url_n_name@[0]@ && seqs(url_n_name@)[1] == url_n_name@[1]@);
    let host = url_n_name[0].as_slice();
    let name = url_n_name[1].as_slice();
    if orden.len() > MAX_PKT_PAYLOAD || host.len() > MAX_PKT_PAYLOAD || name.len()
        > MAX_PKT_PAYLOAD || orden.len() + host.len() + name.len() + 9 > MAX_PKT_PAYLOAD {
        return Err(GitrError::InvalidArgumentError);
    }
    proof {
        reveal_strlit("host=");
    }
    let mut payload = copy_range(orden, 0, orden.len());
    payload.push(32u8);
    payload.push(47u8);
    push_all(&mut payload, name);
    payload.push(0u8);
    push_all(&mut payload, bytes_of("host=").as_slice());
    push_all(&mut payload, host);
    payload.push(0u8);
    assert(payload@ =~= orden@ + seq![32u8, 47u8] + name@ + seq![0u8] + ascii("host="@) + host@
        + seq![0u8]);
    let mut message: Vec<u8> = Vec::new();
    push_pkt_line(&mut message, payload.as_slice());
    assert(message@ =~= handshake_line(orden@, host@, name@));
    Ok((url_n_name[0].clone(), message))
}

} // verus!
