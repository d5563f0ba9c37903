use crate::diff::{empty_diff, lines_view, ordered, Diff};
use crate::codec::{compresses, zlib_stream};
use crate::file_manager::{
    get_commit, get_current_commit, get_parent_commit, heads_prefix, ref_lookup, repo_refs,
    stored_commit,
    written, Repository,
};
use crate::objects::commit::{
    commit_payload, commit_wf, identity_line, no_parent, unquoted, Commit, CommitView,
};
use crate::file_manager::{holds, lemma_stored_commit_wf, ObjectStore};
use crate::objects::git_object::{canonical, is_object_id, object_id, ObjectKind};
use crate::gitr_errors::GitrError;
use crate::objects::tree::{base_name, last_component};
use crate::server::server_utils::{
    ref_current, ref_put, ref_removed, refs_view, remove_ref, write_ref,
};
use crate::text::{copy_range, has_prefix, starts_with};
use crate::sorting::{is_sorted_order, key_le, sorted_order};
use crate::text::{ascii, bytes_eq, bytes_of, lines, lines_of, push_all, seqs};
use vstd::prelude::*;

verus! {

/// What applying the lines `changes` of a diff, from the `j`-th on, makes of
/// the lines `text` from the `i`-th on; every line that comes out ends in a
/// line feed. Where the next change is for line `i`: an addition goes in
/// before the line; a deletion drops the line, and when an addition follows
/// it in the diff, that addition takes the line's place. Changes that are
/// left when the text is used up are added at the end.
pub open spec fn applied(
    text: Seq<Seq<u8>>,
    changes: Seq<(usize, bool, Seq<u8>)>,
    i: int,
    j: int,
) -> Seq<Seq<u8>>
    decreases text.len() - i, changes.len() - j,
{
    if i < 0 || j < 0 {
        Seq::empty()
    } else if i >= text.len() {
        if j >= changes.len() {
            Seq::empty()
        } else {
            seq![changes[j].2 + seq![10u8]] + applied(text, changes, i, j + 1)
        }
    } else if j < changes.len() && changes[j].0 == i {
        if !changes[j].1 {
            if j + 1 < changes.len() && changes[j + 1].1 {
                seq![changes[j + 1].2 + seq![10u8]] + applied(text, changes, i + 1, j + 2)
            } else {
                applied(text, changes, i + 1, j + 1)
            }
        } else {
            seq![changes[j].2 + seq![10u8], text[i] + seq![10u8]] + applied(
                text,
                changes,
                i + 1,
                j + 1,
            )
        }
    } else {
        seq![text[i] + seq![10u8]] + applied(text, changes, i + 1, j)
    }
}

/// A line with a line feed at its end.
fn ended(line: &[u8]) -> (r: Vec<u8>)
    ensures
        r@ == line@ + seq![10u8],
{
    let mut r: Vec<u8> = Vec::new();
    push_all(&mut r, line);
    r.push(10u8);
    assert(r@ =~= line@ + seq![10u8]);
    r
}

/// Applies a diff to a text: the lines of the text that results.
pub fn _aplicar_diffs(string_archivo: Vec<u8>, diff: Diff) -> (r: Result<Vec<Vec<u8>>, GitrError>)
    ensures
        r matches Ok(out) && seqs(out@) == applied(
            lines_of(string_archivo@),
            lines_view(diff.lineas@),
            0,
            0,
        ),
{
    let text = lines(string_archivo.as_slice());
    let ghost tv = seqs(text@);
    let ghost cv = lines_view(diff.lineas@);
    let mut archivo_reconstruido: Vec<Vec<u8>> = Vec::new();
    let mut j: usize = 0;
    let max_j: usize = diff.lineas.len();
    let mut i: usize = 0;
    proof {
        assert(seqs(archivo_reconstruido@) + applied(tv, cv, 0, 0) =~= applied(tv, cv, 0, 0));
    }
    while i < text.len()
        invariant
            i <= text@.len(),
            j <= max_j == diff.lineas@.len(),
            tv == seqs(text@),
            cv == lines_view(diff.lineas@),
            seqs(archivo_reconstruido@) + applied(tv, cv, i as int, j as int) == applied(
                tv,
                cv,
                0,
                0,
            ),
        decreases text@.len() - i,
    {
        let ghost before = seqs(archivo_reconstruido@);
        let ghost rest = applied(tv, cv, i as int, j as int);
        assert(tv[i as int] == text@[i as int]@);
        if j < max_j && diff.lineas[j].0 == i {
            assert(cv[j as int] == (diff.lineas@[j as int].0, diff.lineas@[j as int].1, diff.lineas@[j as int].2@));
            if !diff.lineas[j].1 {
                if j + 1 < max_j && diff.lineas[j + 1].1 {
                    assert(cv[j + 1] == (diff.lineas@[j + 1].0, diff.lineas@[j + 1].1, diff.lineas@[j + 1].2@));
                    archivo_reconstruido.push(ended(diff.lineas[j + 1].2.as_slice()));
                    proof {
                        assert(seqs(archivo_reconstruido@) =~= before.push(cv[j + 1].2 + seq![10u8]));
                        assert(seqs(archivo_reconstruido@) + applied(tv, cv, i + 1, j + 2)
                            =~= before + rest);
                    }
                    j = j + 2;
                } else {
                    proof {
                        if j + 1 < max_j {
                            assert(cv[j + 1] == (diff.lineas@[j + 1].0, diff.lineas@[j + 1].1, diff.lineas@[j + 1].2@));
                        }
                    }
                    j = j + 1;
                }
            } else {
                archivo_reconstruido.push(ended(diff.lineas[j].2.as_slice()));
                archivo_reconstruido.push(ended(text[i].as_slice()));
                proof {
                    assert(seqs(archivo_reconstruido@) =~= before + seq![
                        cv[j as int].2 + seq![10u8],
                        tv[i as int] + seq![10u8],
                    ]);
                    assert(seqs(archivo_reconstruido@) + applied(tv, cv, i + 1, j + 1) =~= before
                        + rest);
                }
                j = j + 1;
            }
        } else {
            proof {
                if j < max_j {
                    assert(cv[j as int] == (diff.lineas@[j as int].0, diff.lineas@[j as int].1, diff.lineas@[j as int].2@));
                }
            }
            archivo_reconstruido.push(ended(text[i].as_slice()));
            proof {
                assert(seqs(archivo_reconstruido@) =~= before.push(tv[i as int] + seq![10u8]));
                assert(seqs(archivo_reconstruido@) + applied(tv, cv, i + 1, j as int) =~= before
                    + rest);
            }
        }
        i = i + 1;
    }
    while j < max_j
        invariant
            i == text@.len(),
            j <= max_j == diff.lineas@.len(),
            tv == seqs(text@),
            cv == lines_view(diff.lineas@),
            seqs(archivo_reconstruido@) + applied(tv, cv, i as int, j as int) == applied(
                tv,
                cv,
                0,
                0,
            ),
        decreases max_j - j,
    {
        let ghost before = seqs(archivo_reconstruido@);
        let ghost rest = applied(tv, cv, i as int, j as int);
        assert(cv[j as int] == (diff.lineas@[j as int].0, diff.lineas@[j as int].1, diff.lineas@[j as int].2@));
        archivo_reconstruido.push(ended(diff.lineas[j].2.as_slice()));
        proof {
            assert(seqs(archivo_reconstruido@) =~= before.push(cv[j as int].2 + seq![10u8]));
            assert(seqs(archivo_reconstruido@) + applied(tv, cv, i as int, j + 1) =~= before + rest);
        }
        j = j + 1;
    }
    proof {
        assert(applied(tv, cv, i as int, j as int) =~= Seq::<Seq<u8>>::empty());
        assert(seqs(archivo_reconstruido@) + Seq::<Seq<u8>>::empty() =~= seqs(
            archivo_reconstruido@,
        ));
    }
    Ok(archivo_reconstruido)
}

/// The text that marks a conflict between what one side and what the other
/// side put in the same place.
pub open spec fn conflict_text(origin: Seq<u8>, new: Seq<u8>) -> Seq<u8> {
    ascii("<<<<<<< HEAD\n"@) + origin + ascii("\n=======\n"@) + new + ascii("\n>>>>>>> BRANCH"@)
}

/// Whether `text` marks a conflict.
pub open spec fn is_conflict(text: Seq<u8>) -> bool {
    exists|a: Seq<u8>, b: Seq<u8>| text == #[trigger] conflict_text(a, b)
}

/// Whether one of the lines is an addition that marks a conflict.
pub open spec fn has_conflict(ls: Seq<(usize, bool, Vec<u8>)>) -> bool {
    exists|k: int| 0 <= k < ls.len() && (#[trigger] ls[k]).1 && is_conflict(ls[k].2@)
}

/// Builds the text that marks a conflict.
pub fn armar_conflict2(origin_conflicts: &[u8], new_conflicts: &[u8]) -> (r: Vec<u8>)
    ensures
        r@ == conflict_text(origin_conflicts@, new_conflicts@),
{
    proof {
        reveal_strlit("<<<<<<< HEAD\n");
        reveal_strlit("\n=======\n");
        reveal_strlit("\n>>>>>>> BRANCH");
    }
    let mut out = bytes_of("<<<<<<< HEAD\n");
    push_all(&mut out, origin_conflicts);
    push_all(&mut out, bytes_of("\n=======\n").as_slice());
    push_all(&mut out, new_conflicts);
    push_all(&mut out, bytes_of("\n>>>>>>> BRANCH").as_slice());
    assert(out@ =~= conflict_text(origin_conflicts@, new_conflicts@));
    out
}

/// The number and the kind of each of the lines `ls`.
pub open spec fn line_keys(ls: Seq<(usize, bool, Seq<u8>)>) -> Seq<(usize, bool)> {
    Seq::new(ls.len(), |i: int| (ls[i].0, ls[i].1))
}

/// Whether `out` is `ls` arranged by number, a deletion before an addition
/// on the same line, lines with the same number and kind in the order
/// that they had.
pub open spec fn arranged(ls: Seq<(usize, bool, Seq<u8>)>, out: Seq<(usize, bool, Seq<u8>)>) -> bool {
    exists|order: Seq<usize>|
        #[trigger] is_sorted_order(line_keys(ls), order) && out.len() == ls.len() && forall|m: int|
            0 <= m < out.len() ==> out[m] == ls[#[trigger] order[m] as int]
}

/// The lines of `v` arranged by number, a deletion before an addition on the
/// same line; lines with the same number and kind stay as they were.
fn sort_lines(v: &Vec<(usize, bool, Vec<u8>)>) -> (r: Vec<(usize, bool, Vec<u8>)>)
    ensures
        ordered(lines_view(r@)),
        r@.len() == v@.len(),
        forall|k: int|
            0 <= k < r@.len() ==> lines_view(v@).contains(#[trigger] lines_view(r@)[k]),
        arranged(lines_view(v@), lines_view(r@)),
{
    let mut keys: Vec<(usize, bool)> = Vec::new();
    let mut i: usize = 0;
    while i < v.len()
        invariant
            i <= v@.len(),
            keys@.len() == i,
            forall|p: int| 0 <= p < i ==> #[trigger] keys@[p] == (v@[p].0, v@[p].1),
        decreases v@.len() - i,
    {
        keys.push((v[i].0, v[i].1));
        i = i + 1;
    }
    let order = sorted_order(&keys);
    let mut out: Vec<(usize, bool, Vec<u8>)> = Vec::new();
    let mut k: usize = 0;
    while k < order.len()
        invariant
            k <= order@.len(),
            out@.len() == k,
            keys@.len() == v@.len(),
            is_sorted_order(keys@, order@),
            forall|p: int| 0 <= p < keys@.len() ==> #[trigger] keys@[p] == (v@[p].0, v@[p].1),
            forall|m: int|
                0 <= m < k ==> lines_view(out@)[m] == lines_view(v@)[#[trigger] order@[m] as int],
        decreases order@.len() - k,
    {
        let p: usize = order[k];
        assert(p < keys@.len());
        out.push((v[p].0, v[p].1, v[p].2.clone()));
        k = k + 1;
    }
    proof {
        let lv = lines_view(out@);
        assert forall|a: int, b: int| 0 <= a < b < lv.len() implies (#[trigger] lv[a]).0 < (
        #[trigger] lv[b]).0 || (lv[a].0 == lv[b].0 && (!lv[a].1 || lv[b].1)) by {
            let pa = order@[a] as int;
            let pb = order@[b] as int;
            assert(pa < keys@.len() && pb < keys@.len());
            assert(key_le(keys@[pa], keys@[pb]));
            assert(lv[a] == lines_view(v@)[pa]);
            assert(lv[b] == lines_view(v@)[pb]);
        }
        assert forall|m: int| 0 <= m < out@.len() implies lines_view(v@).contains(
            #[trigger] lines_view(out@)[m],
        ) by {
            let p = order@[m] as int;
            assert(p < keys@.len());
            assert(lines_view(out@)[m] == lines_view(v@)[p]);
        }
        assert(keys@ =~= line_keys(lines_view(v@)));
        assert(is_sorted_order(line_keys(lines_view(v@)), order@));
    }
    out
}

/// How many of the first `n` lines of a diff are additions.
pub open spec fn additions(ls: Seq<(usize, bool, Seq<u8>)>, n: int) -> int
    decreases n,
{
    if n <= 0 {
        0
    } else {
        additions(ls, n - 1) + if ls[n - 1].1 {
            1int
        } else {
            0int
        }
    }
}

proof fn lemma_additions_bound(ls: Seq<(usize, bool, Seq<u8>)>, n: int)
    requires
        0 <= n,
    ensures
        0 <= additions(ls, n) <= n,
    decreases n,
{
    if n > 0 {
        lemma_additions_bound(ls, n - 1);
    }
}

/// The additions of a diff as they are joined so far: the joined
/// additions, how many lines the last of them holds, and how many
/// additions went into another one.
pub struct Joining {
    pub out: Seq<(usize, bool, Seq<u8>)>,
    pub corr: usize,
    pub total: nat,
}

/// The additions among the first `n` of the lines `lv`, joined: an
/// addition whose number follows the lines of the joined addition before
/// it goes into that one, after a line feed; any other starts a new one.
pub open spec fn joining(lv: Seq<(usize, bool, Seq<u8>)>, n: int) -> Joining
    decreases n,
{
    if n <= 0 {
        Joining { out: Seq::empty(), corr: 1, total: 0 }
    } else {
        let s = joining(lv, n - 1);
        let l = lv[n - 1];
        if !l.1 {
            s
        } else if l.0 == 0 || n == 1 || s.out.len() == 0 {
            Joining { out: s.out.push((l.0, true, l.2)), corr: s.corr, total: s.total }
        } else if s.out.last().0 + s.corr == l.0 && s.corr < usize::MAX {
            Joining {
                out: s.out.drop_last().push(
                    (s.out.last().0, s.out.last().1, s.out.last().2 + seq![10u8] + l.2),
                ),
                corr: (s.corr + 1) as usize,
                total: s.total + 1,
            }
        } else {
            Joining { out: s.out.push((l.0, true, l.2)), corr: 1, total: s.total }
        }
    }
}

/// The deletions among the first `n` of the lines `lv`, in order.
pub open spec fn deletions(lv: Seq<(usize, bool, Seq<u8>)>, n: int) -> Seq<(usize, bool, Seq<u8>)>
    decreases n,
{
    if n <= 0 {
        Seq::empty()
    } else if !lv[n - 1].1 {
        deletions(lv, n - 1).push((lv[n - 1].0, false, lv[n - 1].2))
    } else {
        deletions(lv, n - 1)
    }
}

/// The lines of a diff with its additions joined: the joined additions,
/// and the deletions after them.
pub open spec fn joined_lines(lv: Seq<(usize, bool, Seq<u8>)>) -> Seq<(usize, bool, Seq<u8>)> {
    joining(lv, lv.len() as int).out + deletions(lv, lv.len() as int)
}

/// Joins the additions of a diff that stand on lines that follow one
/// another into one addition that holds them all, each on a line of its own.
/// The result holds the joined additions and the deletions, ordered by
/// number, a deletion before an addition on the same line; `lineas_extra`
/// tells how many additions went into another one.
pub fn juntar_consecutivos(diff: Diff) -> (r: Diff)
    ensures
        ordered(lines_view(r.lineas@)),
        r.lineas@.len() + r.lineas_extra == diff.lineas@.len(),
        r.lineas_eliminadas@.len() == 0,
        r.lineas_agregadas@.len() == 0,
        arranged(joined_lines(lines_view(diff.lineas@)), lines_view(r.lineas@)),
        r.lineas_extra == joining(lines_view(diff.lineas@), diff.lineas@.len() as int).total,
{
    let mut diff_juntado = empty_diff();
    let mut output: Vec<(usize, bool, Vec<u8>)> = Vec::new();
    let mut corrimiento: usize = 1;
    let mut corrimiento_total: usize = 0;
    let mut i: usize = 0;
    let ghost lv = lines_view(diff.lineas@);
    proof {
        assert(lines_view(output@) =~= joining(lv, 0).out);
    }
    while i < diff.lineas.len()
        invariant
            i <= diff.lineas@.len(),
            lv == lines_view(diff.lineas@),
            output@.len() + corrimiento_total == additions(lv, i as int),
            lines_view(output@) == joining(lv, i as int).out,
            corrimiento == joining(lv, i as int).corr,
            corrimiento_total == joining(lv, i as int).total,
        decreases diff.lineas@.len() - i,
    {
        let index: usize = diff.lineas[i].0;
        let ghost before = lines_view(output@);
        let ghost l = lv[i as int];
        proof {
            assert(lv[i as int].1 == diff.lineas@[i as int].1);
            assert(l == (diff.lineas@[i as int].0, diff.lineas@[i as int].1, diff.lineas@[i as int].2@));
            lemma_additions_bound(lv, i as int);
        }
        if diff.lineas[i].1 {
            if index == 0 || i == 0 || output.len() == 0 {
                output.push((index, true, diff.lineas[i].2.clone()));
                assert(lines_view(output@) =~= before.push((l.0, true, l.2)));
            } else {
                let last: usize = output.len() - 1;
                assert(before.last() == (output@[last as int].0, output@[last as int].1, output@[last as int].2@));
                let follows = match output[last].0.checked_add(corrimiento) {
                    Some(next) => next == index,
                    None => false,
                };
                if follows && corrimiento < usize::MAX {
                    let (prev_num, prev_flag, mut prev_str) = match output.pop() {
                        Some(prev) => prev,
                        None => (index, true, Vec::new()),
                    };
                    let ghost prev_text = prev_str@;
                    proof {
                        assert(lines_view(output@) =~= before.drop_last());
                    }
                    prev_str.push(10u8);
                    push_all(&mut prev_str, diff.lineas[i].2.as_slice());
                    assert(prev_str@ =~= prev_text + seq![10u8] + l.2);
                    output.push((prev_num, prev_flag, prev_str));
                    assert(lines_view(output@) =~= before.drop_last().push(
                        (before.last().0, before.last().1, before.last().2 + seq![10u8] + l.2),
                    ));
                    corrimiento = corrimiento + 1;
                    corrimiento_total = corrimiento_total + 1;
                } else {
                    output.push((index, true, diff.lineas[i].2.clone()));
                    assert(lines_view(output@) =~= before.push((l.0, true, l.2)));
                    corrimiento = 1;
                }
            }
        }
        i = i + 1;
    }
    let mut k: usize = 0;
    let ghost joined = output@.len() as int;
    let ghost head = lines_view(output@);
    proof {
        lemma_additions_bound(lv, diff.lineas@.len() as int);
        assert(head + deletions(lv, 0) =~= head);
    }
    while k < diff.lineas.len()
        invariant
            k <= diff.lineas@.len(),
            lv == lines_view(diff.lineas@),
            joined + corrimiento_total == additions(lv, diff.lineas@.len() as int),
            0 <= additions(lv, diff.lineas@.len() as int) <= diff.lineas@.len(),
            output@.len() == joined + (k - additions(lv, k as int)),
            lines_view(output@) == head + deletions(lv, k as int),
        decreases diff.lineas@.len() - k,
    {
        let ghost before = lines_view(output@);
        let ghost l = lv[k as int];
        proof {
            assert(lv[k as int].1 == diff.lineas@[k as int].1);
            assert(l == (diff.lineas@[k as int].0, diff.lineas@[k as int].1, diff.lineas@[k as int].2@));
            lemma_additions_bound(lv, k as int);
        }
        if !diff.lineas[k].1 {
            output.push((diff.lineas[k].0, false, diff.lineas[k].2.clone()));
            assert(lines_view(output@) =~= before.push((l.0, false, l.2)));
            assert(before.push((l.0, false, l.2)) =~= head + deletions(lv, k as int).push(
                (l.0, false, l.2),
            ));
        }
        k = k + 1;
    }
    diff_juntado.lineas = sort_lines(&output);
    diff_juntado.lineas_extra = corrimiento_total;
    diff_juntado
}

/// Whether two tagged lines have the same number, kind and text.
fn same_line(a: &(usize, bool, Vec<u8>, Vec<u8>), b: &(usize, bool, Vec<u8>, Vec<u8>)) -> (r: bool)
    ensures
        r == (a.0 == b.0 && a.1 == b.1 && a.2@ == b.2@),
{
    a.0 == b.0 && a.1 == b.1 && bytes_eq(a.2.as_slice(), b.2.as_slice())
}

/// Whether tagged lines are ordered by number, a deletion before an
/// addition on the same line.
pub open spec fn tagged_ordered(ls: Seq<(usize, bool, Vec<u8>, Vec<u8>)>) -> bool {
    forall|a: int, b: int|
        0 <= a < b < ls.len() ==> key_le(
            ((#[trigger] ls[a]).0, ls[a].1),
            ((#[trigger] ls[b]).0, ls[b].1),
        )
}

/// The mathematical values of tagged lines.
pub open spec fn tagged_view(ls: Seq<(usize, bool, Vec<u8>, Vec<u8>)>) -> Seq<
    (usize, bool, Seq<u8>, Seq<u8>),
> {
    Seq::new(ls.len(), |i: int| (ls[i].0, ls[i].1, ls[i].2@, ls[i].3@))
}

/// Whether `list` holds a line with the number, kind and text of `l`.
pub open spec fn has_line(list: Seq<(usize, bool, Seq<u8>, Seq<u8>)>, l: (usize, bool, Seq<u8>)) -> bool {
    exists|k: int|
        0 <= k < list.len() && (#[trigger] list[k]).0 == l.0 && list[k].1 == l.1 && list[k].2
            == l.2
}

/// `acc` with the first `n` of the lines `ls` added, each tagged with
/// `tag`, but for those whose number, kind and text a line before them
/// has.
pub open spec fn uniques(
    acc: Seq<(usize, bool, Seq<u8>, Seq<u8>)>,
    ls: Seq<(usize, bool, Seq<u8>)>,
    tag: Seq<u8>,
    n: int,
) -> Seq<(usize, bool, Seq<u8>, Seq<u8>)>
    decreases n,
{
    if n <= 0 {
        acc
    } else {
        let before = uniques(acc, ls, tag, n - 1);
        if has_line(before, ls[n - 1]) {
            before
        } else {
            before.push((ls[n - 1].0, ls[n - 1].1, ls[n - 1].2, tag))
        }
    }
}

/// The lines `a` tagged `origin` and then the lines `b` tagged `new`, each
/// line kept once.
pub open spec fn side_by_side(a: Seq<(usize, bool, Seq<u8>)>, b: Seq<(usize, bool, Seq<u8>)>) -> Seq<
    (usize, bool, Seq<u8>, Seq<u8>),
> {
    uniques(
        uniques(Seq::empty(), a, ascii("origin"@), a.len() as int),
        b,
        ascii("new"@),
        b.len() as int,
    )
}

/// The number and the kind of each of the tagged lines `ls`.
pub open spec fn tagged_keys(ls: Seq<(usize, bool, Seq<u8>, Seq<u8>)>) -> Seq<(usize, bool)> {
    Seq::new(ls.len(), |i: int| (ls[i].0, ls[i].1))
}

/// Whether `out` is `ls` arranged by number, a deletion before an addition
/// on the same line, lines with the same number and kind in the order
/// that they had.
pub open spec fn arranged_tagged(
    ls: Seq<(usize, bool, Seq<u8>, Seq<u8>)>,
    out: Seq<(usize, bool, Seq<u8>, Seq<u8>)>,
) -> bool {
    exists|order: Seq<usize>|
        #[trigger] is_sorted_order(tagged_keys(ls), order) && out.len() == ls.len() && forall|
            m: int,
        |
            0 <= m < out.len() ==> out[m] == ls[#[trigger] order[m] as int]
}

/// Whether `out` is what putting side by side makes of the lines `lo` and
/// `lb` of two diffs: the lines of each with its additions joined and
/// arranged, then both side by side, arranged.
pub open spec fn side_by_side_of(
    lo: Seq<(usize, bool, Seq<u8>)>,
    lb: Seq<(usize, bool, Seq<u8>)>,
    out: Seq<(usize, bool, Seq<u8>, Seq<u8>)>,
) -> bool {
    exists|a: Seq<(usize, bool, Seq<u8>)>, b: Seq<(usize, bool, Seq<u8>)>|
        #![trigger arranged(joined_lines(lo), a), arranged(joined_lines(lb), b)]
        arranged(joined_lines(lo), a) && arranged(joined_lines(lb), b) && arranged_tagged(
            side_by_side(a, b),
            out,
        )
}

/// Puts the lines of two diffs side by side for comparison: the additions
/// of each joined where they follow one another, each line tagged with the
/// side it comes from (`origin` or `new`), a line that both sides have
/// kept once, and all ordered by number, a deletion before an addition on
/// the same line.
pub fn preparar_lineas_para_comparar(diff_base_origin: Diff, diff_base_branch: Diff) -> (r: Vec<
    (usize, bool, Vec<u8>, Vec<u8>),
>)
    ensures
        tagged_ordered(r@),
        r@.len() <= diff_base_origin.lineas@.len() + diff_base_branch.lineas@.len(),
        forall|a: int, b: int|
            0 <= a < b < r@.len() ==> !((#[trigger] r@[a]).0 == (#[trigger] r@[b]).0 && r@[a].1
                == r@[b].1 && r@[a].2@ == r@[b].2@),
        side_by_side_of(
            lines_view(diff_base_origin.lineas@),
            lines_view(diff_base_branch.lineas@),
            tagged_view(r@),
        ),
{
    let ghost total = diff_base_origin.lineas@.len() + diff_base_branch.lineas@.len();
    let ghost lo = lines_view(diff_base_origin.lineas@);
    let ghost lb = lines_view(diff_base_branch.lineas@);
    let origin_consec = juntar_consecutivos(diff_base_origin).lineas;
    let new_consec = juntar_consecutivos(diff_base_branch).lineas;
    let ghost av = lines_view(origin_consec@);
    let ghost bv = lines_view(new_consec@);
    let mut unicos: Vec<(usize, bool, Vec<u8>, Vec<u8>)> = Vec::new();
    let mut i: usize = 0;
    proof {
        assert(tagged_view(unicos@) =~= uniques(Seq::empty(), av, ascii("origin"@), 0));
    }
    while i < origin_consec.len()
        invariant
            i <= origin_consec@.len(),
            unicos@.len() <= i,
            av == lines_view(origin_consec@),
            tagged_view(unicos@) == uniques(Seq::empty(), av, ascii("origin"@), i as int),
            forall|a: int, b: int|
                0 <= a < b < unicos@.len() ==> !((#[trigger] unicos@[a]).0 == (
                #[trigger] unicos@[b]).0 && unicos@[a].1 == unicos@[b].1 && unicos@[a].2@
                    == unicos@[b].2@),
        decreases origin_consec@.len() - i,
    {
        proof {
            reveal_strlit("origin");
        }
        let tupla = (
            origin_consec[i].0,
            origin_consec[i].1,
            origin_consec[i].2.clone(),
            bytes_of("origin"),
        );
        let ghost before = tagged_view(unicos@);
        let ghost tv = (tupla.0, tupla.1, tupla.2@, tupla.3@);
        assert(av[i as int] == (tupla.0, tupla.1, tupla.2@));
        if !seen(&unicos, &tupla) {
            unicos.push(tupla);
            assert(tagged_view(unicos@) =~= before.push(tv));
        }
        i = i + 1;
    }
    let mut j: usize = 0;
    let ghost first = tagged_view(unicos@);
    while j < new_consec.len()
        invariant
            j <= new_consec@.len(),
            bv == lines_view(new_consec@),
            tagged_view(unicos@) == uniques(first, bv, ascii("new"@), j as int),
            unicos@.len() <= origin_consec@.len() + j,
            forall|a: int, b: int|
                0 <= a < b < unicos@.len() ==> !((#[trigger] unicos@[a]).0 == (
                #[trigger] unicos@[b]).0 && unicos@[a].1 == unicos@[b].1 && unicos@[a].2@
                    == unicos@[b].2@),
        decreases new_consec@.len() - j,
    {
        proof {
            reveal_strlit("new");
        }
        let tupla = (new_consec[j].0, new_consec[j].1, new_consec[j].2.clone(), bytes_of("new"));
        let ghost before = tagged_view(unicos@);
        let ghost tv = (tupla.0, tupla.1, tupla.2@, tupla.3@);
        assert(bv[j as int] == (tupla.0, tupla.1, tupla.2@));
        if !seen(&unicos, &tupla) {
            unicos.push(tupla);
            assert(tagged_view(unicos@) =~= before.push(tv));
        }
        j = j + 1;
    }
    let mut keys: Vec<(usize, bool)> = Vec::new();
    let mut k: usize = 0;
    while k < unicos.len()
        invariant
            k <= unicos@.len(),
            keys@.len() == k,
            forall|p: int| 0 <= p < k ==> #[trigger] keys@[p] == (unicos@[p].0, unicos@[p].1),
        decreases unicos@.len() - k,
    {
        keys.push((unicos[k].0, unicos[k].1));
        k = k + 1;
    }
    let order = sorted_order(&keys);
    let mut result: Vec<(usize, bool, Vec<u8>, Vec<u8>)> = Vec::new();
    let mut m: usize = 0;
    while m < order.len()
        invariant
            m <= order@.len(),
            result@.len() == m,
            keys@.len() == unicos@.len(),
            is_sorted_order(keys@, order@),
            forall|p: int|
                0 <= p < keys@.len() ==> #[trigger] keys@[p] == (unicos@[p].0, unicos@[p].1),
            forall|x: int|
                0 <= x < m ==> {
                    let p = #[trigger] order@[x] as int;
                    result@[x].0 == unicos@[p].0 && result@[x].1 == unicos@[p].1 && result@[x].2@
                        == unicos@[p].2@ && result@[x].3@ == unicos@[p].3@
                },
        decreases order@.len() - m,
    {
        let p: usize = order[m];
        assert(p < keys@.len());
        result.push((unicos[p].0, unicos[p].1, unicos[p].2.clone(), unicos[p].3.clone()));
        m = m + 1;
    }
    proof {
        let uv = tagged_view(unicos@);
        let rv = tagged_view(result@);
        assert(keys@ =~= tagged_keys(uv));
        assert(is_sorted_order(tagged_keys(uv), order@));
        assert forall|x: int| 0 <= x < rv.len() implies rv[x] == uv[#[trigger] order@[x] as int] by {
            let p = order@[x] as int;
            assert(p < keys@.len());
        }
        assert(arranged_tagged(uv, rv));
        assert(uv == side_by_side(av, bv));
        assert(arranged(joined_lines(lo), av));
        assert(arranged(joined_lines(lb), bv));
        assert forall|a: int, b: int| 0 <= a < b < result@.len() implies key_le(
            ((#[trigger] result@[a]).0, result@[a].1),
            ((#[trigger] result@[b]).0, result@[b].1),
        ) by {
            let pa = order@[a] as int;
            let pb = order@[b] as int;
            assert(pa < keys@.len() && pb < keys@.len());
            assert(key_le(keys@[pa], keys@[pb]));
        }
        assert forall|a: int, b: int| 0 <= a < b < result@.len() implies !((
        #[trigger] result@[a]).0 == (#[trigger] result@[b]).0 && result@[a].1 == result@[b].1
            && result@[a].2@ == result@[b].2@) by {
            let pa = order@[a] as int;
            let pb = order@[b] as int;
            assert(pa < keys@.len() && pb < keys@.len());
            assert(pa != pb);
            if pa < pb {
                assert(!(unicos@[pa].0 == unicos@[pb].0 && unicos@[pa].1 == unicos@[pb].1
                    && unicos@[pa].2@ == unicos@[pb].2@));
            } else {
                assert(!(unicos@[pb].0 == unicos@[pa].0 && unicos@[pb].1 == unicos@[pa].1
                    && unicos@[pb].2@ == unicos@[pa].2@));
            }
        }
    }
    result
}

/// Whether `list` holds a line with the number, kind and text of `line`.
fn seen(list: &Vec<(usize, bool, Vec<u8>, Vec<u8>)>, line: &(usize, bool, Vec<u8>, Vec<u8>)) -> (r:
    bool)
    ensures
        r == exists|k: int|
            0 <= k < list@.len() && (#[trigger] list@[k]).0 == line.0 && list@[k].1 == line.1
                && list@[k].2@ == line.2@,
        r == has_line(tagged_view(list@), (line.0, line.1, line.2@)),
{
    let ghost tv = tagged_view(list@);
    let mut k: usize = 0;
    while k < list.len()
        invariant
            k <= list@.len(),
            tv == tagged_view(list@),
            forall|m: int|
                0 <= m < k ==> !((#[trigger] list@[m]).0 == line.0 && list@[m].1 == line.1
                    && list@[m].2@ == line.2@),
        decreases list@.len() - k,
    {
        if same_line(&list[k], line) {
            assert(tv[k as int].0 == line.0 && tv[k as int].1 == line.1 && tv[k as int].2
                == line.2@);
            return true;
        }
        k = k + 1;
    }
    proof {
        if has_line(tv, (line.0, line.1, line.2@)) {
            let m = choose|m: int|
                0 <= m < tv.len() && (#[trigger] tv[m]).0 == line.0 && tv[m].1 == line.1 && tv[m].2
                    == line.2@;
            assert(list@[m].0 == line.0 && list@[m].1 == line.1 && list@[m].2@ == line.2@);
        }
    }
    false
}

/// The places among the first `n` of the tagged lines `t` of the additions
/// on line `index`, in order.
pub open spec fn addition_places(t: Seq<(usize, bool, Seq<u8>, Seq<u8>)>, index: usize, n: int) -> Seq<
    usize,
>
    decreases n,
{
    if n <= 0 {
        Seq::empty()
    } else if t[n - 1].0 == index && t[n - 1].1 {
        addition_places(t, index, n - 1).push((n - 1) as usize)
    } else {
        addition_places(t, index, n - 1)
    }
}

/// The places in `result` of the additions on line `index`, in order.
fn additions_at(result: &Vec<(usize, bool, Vec<u8>, Vec<u8>)>, index: usize) -> (r: Vec<usize>)
    ensures
        forall|k: int|
            0 <= k < r@.len() ==> (#[trigger] r@[k]) < result@.len() && result@[r@[k] as int].0
                == index && result@[r@[k] as int].1,
        forall|a: int, b: int| 0 <= a < b < r@.len() ==> #[trigger] r@[a] < #[trigger] r@[b],
        forall|p: int|
            0 <= p < result@.len() && (#[trigger] result@[p]).0 == index && result@[p].1
                ==> r@.contains(p as usize),
        r@ == addition_places(tagged_view(result@), index, result@.len() as int),
{
    let ghost tv = tagged_view(result@);
    let mut out: Vec<usize> = Vec::new();
    let mut p: usize = 0;
    while p < result.len()
        invariant
            p <= result@.len(),
            tv == tagged_view(result@),
            out@ == addition_places(tv, index, p as int),
            forall|k: int|
                0 <= k < out@.len() ==> (#[trigger] out@[k]) < p && result@[out@[k] as int].0
                    == index && result@[out@[k] as int].1,
            forall|a: int, b: int| 0 <= a < b < out@.len() ==> #[trigger] out@[a] < #[trigger] out@[b],
            forall|q: int|
                0 <= q < p && (#[trigger] result@[q]).0 == index && result@[q].1 ==> out@.contains(
                    q as usize,
                ),
        decreases result@.len() - p,
    {
        assert(tv[p as int].0 == result@[p as int].0 && tv[p as int].1 == result@[p as int].1);
        if result[p].0 == index && result[p].1 {
            let ghost before = out@;
            out.push(p);
            proof {
                assert forall|q: int|
                    0 <= q < p + 1 && (#[trigger] result@[q]).0 == index && result@[q].1 implies out@.contains(
                    q as usize,
                ) by {
                    if q < p {
                        let k = choose|k: int| 0 <= k < before.len() && before[k] == q as usize;
                        assert(out@[k] == q as usize);
                    } else {
                        assert(out@[before.len() as int] == p);
                    }
                }
            }
        }
        p = p + 1;
    }
    out
}

/// The diffs of two sides as they are united so far: the lines that went
/// in, the numbers of the lines whose additions went in, whether a
/// conflict was met, and the place of the first line beyond the limit, when
/// one was met.
pub struct Uniting {
    pub lines: Seq<(usize, bool, Seq<u8>)>,
    pub seen: Seq<usize>,
    pub conflict: bool,
    pub stopped: Option<int>,
}

/// What uniting makes of the first `n` of the tagged lines `t`. A line
/// beyond line `limite` stops the pass. A deletion goes in as it is, unless
/// the additions of its line went in before. An addition goes in unless
/// those of its line went in: as the conflict text of the first two
/// additions of its line where there are two, and else as it is.
pub open spec fn united_to(t: Seq<(usize, bool, Seq<u8>, Seq<u8>)>, limite: usize, n: int) -> Uniting
    decreases n,
{
    if n <= 0 {
        Uniting { lines: Seq::empty(), seen: Seq::empty(), conflict: false, stopped: None }
    } else {
        let s = united_to(t, limite, n - 1);
        let l = t[n - 1];
        let places = addition_places(t, l.0, t.len() as int);
        if s.stopped is Some {
            s
        } else if l.0 > limite {
            Uniting { lines: s.lines, seen: s.seen, conflict: s.conflict, stopped: Some(n - 1) }
        } else if s.seen.contains(l.0) {
            s
        } else if !l.1 {
            Uniting {
                lines: s.lines.push((l.0, false, l.2)),
                seen: s.seen,
                conflict: s.conflict,
                stopped: None,
            }
        } else if places.len() >= 2 {
            Uniting {
                lines: s.lines.push(
                    (l.0, true, conflict_text(t[places[0] as int].2, t[places[1] as int].2)),
                ),
                seen: s.seen.push(l.0),
                conflict: true,
                stopped: None,
            }
        } else if places.len() == 1 {
            Uniting {
                lines: s.lines.push((l.0, true, t[places[0] as int].2)),
                seen: s.seen.push(l.0),
                conflict: s.conflict,
                stopped: None,
            }
        } else {
            Uniting {
                lines: s.lines.push((l.0, true, l.2)),
                seen: s.seen.push(l.0),
                conflict: s.conflict,
                stopped: None,
            }
        }
    }
}

/// Once the pass has stopped, more lines change nothing.
proof fn lemma_united_stays(t: Seq<(usize, bool, Seq<u8>, Seq<u8>)>, limite: usize, m: int, n: int)
    requires
        0 <= m <= n,
        united_to(t, limite, m).stopped is Some,
    ensures
        united_to(t, limite, n) == united_to(t, limite, m),
    decreases n - m,
{
    if m < n {
        lemma_united_stays(t, limite, m, n - 1);
    }
}

/// The line that goes in for the line at place `at`, the first beyond the
/// limit: the line as it is where it is the last of all or the same as
/// the last, tag and all; and else with the conflict text of it and the
/// line after it, that of the side `origin` first.
pub open spec fn beyond_line(t: Seq<(usize, bool, Seq<u8>, Seq<u8>)>, at: int) -> (
    usize,
    bool,
    Seq<u8>,
) {
    let first = t[at];
    let last = t[t.len() - 1];
    if at == t.len() - 1 || (first.0 == last.0 && first.1 == last.1 && first.2 == last.2
        && first.3 == last.3) {
        (first.0, first.1, first.2)
    } else {
        let second = t[at + 1];
        (
            first.0,
            first.1,
            if second.3 == ascii("origin"@) {
                conflict_text(second.2, first.2)
            } else {
                conflict_text(first.2, second.2)
            },
        )
    }
}

/// What uniting makes of the tagged lines `t`: the lines of the united
/// diff, and whether a conflict was met below the limit.
pub open spec fn united(t: Seq<(usize, bool, Seq<u8>, Seq<u8>)>, limite: usize) -> (
    Seq<(usize, bool, Seq<u8>)>,
    bool,
) {
    let s = united_to(t, limite, t.len() as int);
    match s.stopped {
        None => (s.lines, s.conflict),
        Some(at) => (s.lines.push(beyond_line(t, at)), s.conflict),
    }
}

/// Whether `lines` and `conflict` are what uniting makes of the lines `lo`
/// and `lb` of two diffs, put side by side.
pub open spec fn united_of(
    lo: Seq<(usize, bool, Seq<u8>)>,
    lb: Seq<(usize, bool, Seq<u8>)>,
    limite: usize,
    lines: Seq<(usize, bool, Seq<u8>)>,
    conflict: bool,
) -> bool {
    exists|t: Seq<(usize, bool, Seq<u8>, Seq<u8>)>| #[trigger]
        side_by_side_of(lo, lb, t) && united(t, limite) == (lines, conflict)
}

/// Unites the diffs that two sides made of the same text. Changes go in by
/// number. A deletion goes in as it is. Where one side alone added
/// something on a line, that goes in; where both did, a conflict text of
/// the two goes in, and the second result is set. Changes beyond line
/// `limite_archivo` end the pass: the first of them goes in, as a conflict
/// text with the one after it when it is not the last of all.
pub fn comparar_diffs(diff_base_origin: Diff, diff_base_branch: Diff, limite_archivo: usize) -> (r:
    Result<(Diff, bool), GitrError>)
    ensures
        r is Ok,
        r matches Ok((diff, conflict)) ==> diff.lineas@.len() <= diff_base_origin.lineas@.len()
            + diff_base_branch.lineas@.len(),
        r matches Ok((diff, conflict)) ==> diff.lineas_extra == 0 && diff.lineas_eliminadas@.len()
            == 0 && diff.lineas_agregadas@.len() == 0,
        match r {
            Ok((diff, conflict)) => (conflict ==> has_conflict(diff.lineas@)) && united_of(
                lines_view(diff_base_origin.lineas@),
                lines_view(diff_base_branch.lineas@),
                limite_archivo,
                lines_view(diff.lineas@),
                conflict,
            ),
            Err(_) => false,
        },
{
    let ghost lo = lines_view(diff_base_origin.lineas@);
    let ghost lb = lines_view(diff_base_branch.lineas@);
    let mut diff_final = empty_diff();
    let result = preparar_lineas_para_comparar(diff_base_origin, diff_base_branch);
    let ghost tv = tagged_view(result@);
    let mut lineas: Vec<(usize, bool, Vec<u8>)> = Vec::new();
    let mut indices_ya_visitados: Vec<usize> = Vec::new();
    let mut hay_extra = false;
    let mut hubo_conflict = false;
    let mut iter_count: usize = 0;
    let ghost mut witness: int = 0;
    let mut pos: usize = 0;
    proof {
        reveal_strlit("origin");
        assert(lines_view(lineas@) =~= united_to(tv, limite_archivo, 0).lines);
        assert(indices_ya_visitados@ =~= united_to(tv, limite_archivo, 0).seen);
    }
    while pos < result.len()
        invariant_except_break
            !hay_extra,
            united_to(tv, limite_archivo, pos as int).stopped is None,
        invariant
            pos <= result@.len(),
            lineas@.len() <= pos,
            tv == tagged_view(result@),
            lines_view(lineas@) == united_to(tv, limite_archivo, pos as int).lines,
            indices_ya_visitados@ == united_to(tv, limite_archivo, pos as int).seen,
            hubo_conflict == united_to(tv, limite_archivo, pos as int).conflict,
            hubo_conflict ==> 0 <= witness < lineas@.len() && lineas@[witness].1 && is_conflict(
                lineas@[witness].2@,
            ),
        ensures
            hay_extra ==> iter_count < result@.len() && lineas@.len() <= iter_count,
            lineas@.len() <= result@.len(),
            hubo_conflict ==> 0 <= witness < lineas@.len() && lineas@[witness].1 && is_conflict(
                lineas@[witness].2@,
            ),
            lines_view(lineas@) == united_to(tv, limite_archivo, result@.len() as int).lines,
            hubo_conflict == united_to(tv, limite_archivo, result@.len() as int).conflict,
            united_to(tv, limite_archivo, result@.len() as int).stopped == if hay_extra {
                Some(iter_count as int)
            } else {
                None::<int>
            },
        decreases result@.len() - pos,
    {
        let index: usize = result[pos].0;
        let flag: bool = result[pos].1;
        let ghost before = lines_view(lineas@);
        let ghost visited = indices_ya_visitados@;
        let ghost l = tv[pos as int];
        proof {
            assert(l == (
                result@[pos as int].0,
                result@[pos as int].1,
                result@[pos as int].2@,
                result@[pos as int].3@,
            ));
        }
        if index > limite_archivo {
            hay_extra = true;
            iter_count = pos;
            proof {
                assert(united_to(tv, limite_archivo, pos + 1).stopped == Some(pos as int));
                lemma_united_stays(tv, limite_archivo, pos + 1, result@.len() as int);
            }
            break ;
        }
        if !holds_index(&indices_ya_visitados, index) {
            if !flag {
                lineas.push((index, flag, result[pos].2.clone()));
                assert(lines_view(lineas@) =~= before.push((l.0, false, l.2)));
            } else {
                let places = additions_at(&result, index);
                if places.len() >= 2 {
                    hubo_conflict = true;
                    let conflict = armar_conflict2(
                        result[places[0]].2.as_slice(),
                        result[places[1]].2.as_slice(),
                    );
                    proof {
                        witness = lineas@.len() as int;
                        assert(conflict@ == conflict_text(
                            result@[places@[0] as int].2@,
                            result@[places@[1] as int].2@,
                        ));
                        assert(tv[places@[0] as int].2 == result@[places@[0] as int].2@);
                        assert(tv[places@[1] as int].2 == result@[places@[1] as int].2@);
                    }
                    lineas.push((index, flag, conflict));
                    assert(lines_view(lineas@) =~= before.push(
                        (
                            l.0,
                            true,
                            conflict_text(tv[places@[0] as int].2, tv[places@[1] as int].2),
                        ),
                    ));
                } else if places.len() == 1 {
                    assert(tv[places@[0] as int].2 == result@[places@[0] as int].2@);
                    lineas.push((index, flag, result[places[0]].2.clone()));
                    assert(lines_view(lineas@) =~= before.push(
                        (l.0, true, tv[places@[0] as int].2),
                    ));
                } else {
                    lineas.push((index, flag, result[pos].2.clone()));
                    assert(lines_view(lineas@) =~= before.push((l.0, true, l.2)));
                }
                indices_ya_visitados.push(index);
                assert(indices_ya_visitados@ =~= visited.push(l.0));
            }
        }
        pos = pos + 1;
    }
    proof {
        reveal_strlit("origin");
    }
    let ghost s = united_to(tv, limite_archivo, result@.len() as int);
    if hay_extra {
        let ghost before = lines_view(lineas@);
        let last: usize = result.len() - 1;
        let first = &result[iter_count];
        proof {
            assert(tv[iter_count as int] == (first.0, first.1, first.2@, first.3@));
            assert(tv[last as int] == (
                result@[last as int].0,
                result@[last as int].1,
                result@[last as int].2@,
                result@[last as int].3@,
            ));
        }
        if iter_count == last || (same_line(first, &result[last]) && bytes_eq(
            first.3.as_slice(),
            result[last].3.as_slice(),
        )) {
            lineas.push((first.0, first.1, first.2.clone()));
            assert(lines_view(lineas@) =~= before.push(beyond_line(tv, iter_count as int)));
        } else {
            let second = &result[iter_count + 1];
            assert(tv[iter_count + 1] == (second.0, second.1, second.2@, second.3@));
            let conflict = if bytes_eq(second.3.as_slice(), bytes_of("origin").as_slice()) {
                armar_conflict2(second.2.as_slice(), first.2.as_slice())
            } else {
                armar_conflict2(first.2.as_slice(), second.2.as_slice())
            };
            lineas.push((first.0, first.1, conflict));
            assert(lines_view(lineas@) =~= before.push(beyond_line(tv, iter_count as int)));
        }
    }
    proof {
        if hubo_conflict {
            assert(lineas@[witness].1 && is_conflict(lineas@[witness].2@));
        }
        assert(united(tv, limite_archivo) == (lines_view(lineas@), hubo_conflict));
        assert(side_by_side_of(lo, lb, tv));
    }
    diff_final.lineas = lineas;
    proof {
        if hubo_conflict {
            assert(diff_final.lineas@[witness].1 && is_conflict(diff_final.lineas@[witness].2@));
            assert(has_conflict(diff_final.lineas@));
        }
    }
    Ok((diff_final, hubo_conflict))
}

/// Whether `v` holds `x`.
fn holds_index(v: &Vec<usize>, x: usize) -> (r: bool)
    ensures
        r == v@.contains(x),
{
    let mut i: usize = 0;
    while i < v.len()
        invariant
            i <= v@.len(),
            forall|j: int| 0 <= j < i ==> v@[j] != x,
        decreases v@.len() - i,
    {
        if v[i] == x {
            return true;
        }
        i = i + 1;
    }
    false
}

/// The name of the user of a client: the name of the client itself.
pub fn get_current_username(cliente: Vec<u8>) -> (r: Vec<u8>)
    ensures
        r@ == cliente@,
{
    cliente
}

/// The path of something inside a repository: the path of the repository,
/// a slash, and the path inside it.
pub fn armar_path(path: &[u8], repo: &[u8]) -> (r: Result<Vec<u8>, GitrError>)
    ensures
        r matches Ok(full) && full@ == repo@ + seq![47u8] + path@,
{
    let mut full: Vec<u8> = Vec::new();
    push_all(&mut full, repo);
    full.push(47u8);
    push_all(&mut full, path);
    assert(full@ =~= repo@ + seq![47u8] + path@);
    Ok(full)
}

/// The full name of the branch named `branch`.
pub open spec fn branch_ref(branch: Seq<u8>) -> Seq<u8> {
    heads_prefix() + branch
}

/// Executable `branch_ref`.
pub fn full_branch_name(branch: &[u8]) -> (r: Vec<u8>)
    ensures
        r@ == branch_ref(branch@),
{
    proof {
        reveal_strlit("refs/heads/");
    }
    let mut full = bytes_of("refs/heads/");
    push_all(&mut full, branch);
    full
}

/// The names, without `prefix`, of the first `n` references whose full name
/// starts with `prefix`, in order.
pub open spec fn names_under(refs: Seq<(Seq<u8>, Seq<u8>)>, prefix: Seq<u8>, n: int) -> Seq<
    Seq<u8>,
>
    decreases n,
{
    if n <= 0 {
        Seq::empty()
    } else if has_prefix(refs[n - 1].1, prefix) {
        names_under(refs, prefix, n - 1).push(
            refs[n - 1].1.subrange(prefix.len() as int, refs[n - 1].1.len() as int),
        )
    } else {
        names_under(refs, prefix, n - 1)
    }
}

/// The names of the references under `prefix`.
fn list_names(refs: &Vec<(Vec<u8>, Vec<u8>)>, prefix: &[u8]) -> (r: Vec<Vec<u8>>)
    ensures
        seqs(r@) == names_under(refs_view(refs@), prefix@, refs@.len() as int),
{
    let ghost rv = refs_view(refs@);
    let mut out: Vec<Vec<u8>> = Vec::new();
    let mut i: usize = 0;
    proof {
        assert(seqs(out@) =~= names_under(rv, prefix@, 0));
    }
    while i < refs.len()
        invariant
            i <= refs@.len(),
            rv == refs_view(refs@),
            seqs(out@) == names_under(rv, prefix@, i as int),
        decreases refs@.len() - i,
    {
        let ghost before = seqs(out@);
        assert(rv[i as int].1 == refs@[i as int].1@);
        if starts_with(refs[i].1.as_slice(), prefix) {
            out.push(copy_range(refs[i].1.as_slice(), prefix.len(), refs[i].1.len()));
            assert(seqs(out@) =~= before.push(
                rv[i as int].1.subrange(prefix@.len() as int, rv[i as int].1.len() as int),
            ));
        }
        i = i + 1;
    }
    out
}

/// The names of the branches of the repository, in the order of its references.
pub fn get_branches(repo: &Repository) -> (r: Result<Vec<Vec<u8>>, GitrError>)
    ensures
        r matches Ok(names) && seqs(names@) == names_under(
            repo_refs(*repo),
            heads_prefix(),
            repo.refs@.len() as int,
        ),
{
    proof {
        reveal_strlit("refs/heads/");
    }
    Ok(list_names(&repo.refs, bytes_of("refs/heads/").as_slice()))
}

/// The names of the tags of the repository, in the order of its references.
pub fn get_tags(repo: &Repository) -> (r: Result<Vec<Vec<u8>>, GitrError>)
    ensures
        r matches Ok(names) && seqs(names@) == names_under(
            repo_refs(*repo),
            ascii("refs/tags/"@),
            repo.refs@.len() as int,
        ),
{
    proof {
        reveal_strlit("refs/tags/");
    }
    Ok(list_names(&repo.refs, bytes_of("refs/tags/").as_slice()))
}

/// Whether the repository has a branch named `branch`.
pub fn branch_exists(branch: &[u8], repo: &Repository) -> (r: bool)
    ensures
        r == ref_current(repo_refs(*repo), branch_ref(branch@)) is Some,
{
    get_commit(branch, repo).is_ok()
}

/// The names, each on a line of its own.
pub open spec fn listed(names: Seq<Seq<u8>>, n: int) -> Seq<u8>
    decreases n,
{
    if n <= 0 {
        Seq::empty()
    } else {
        listed(names, n - 1) + names[n - 1] + seq![10u8]
    }
}

/// The names of the tags of the repository, each on a line of its own, but
/// for the line feed of the last.
pub fn get_tags_str(repo: &Repository) -> (r: Result<Vec<u8>, GitrError>)
    ensures
        ({
            let names = names_under(repo_refs(*repo), ascii("refs/tags/"@), repo.refs@.len() as int);
            let all = listed(names, names.len() as int);
            r matches Ok(text) && text@ == if all.len() > 0 {
                all.drop_last()
            } else {
                all
            }
        }),
{
    let tags = match get_tags(repo) {
        Ok(tags) => tags,
        Err(e) => {
            return Err(e);
        },
    };
    let ghost names = seqs(tags@);
    let mut out: Vec<u8> = Vec::new();
    let mut i: usize = 0;
    while i < tags.len()
        invariant
            i <= tags@.len(),
            names == seqs(tags@),
            out@ == listed(names, i as int),
        decreases tags@.len() - i,
    {
        assert(names[i as int] == tags@[i as int]@);
        push_all(&mut out, tags[i].as_slice());
        out.push(10u8);
        assert(out@ =~= listed(names, i + 1));
        i = i + 1;
    }
    if out.len() > 0 {
        let last = out.pop();
    }
    Ok(out)
}

/// The list of branches as it is shown: each name on a line of its own, the
/// one that `HEAD` points at marked with a star and shown in green.
pub open spec fn branches_text(names: Seq<Seq<u8>>, current: Seq<u8>, n: int) -> Seq<u8>
    decreases n,
{
    if n <= 0 {
        Seq::empty()
    } else if names[n - 1] == current {
        branches_text(names, current, n - 1) + ascii("* \x1b[92m"@) + names[n - 1] + ascii(
            "\x1b[0m\n"@,
        )
    } else {
        branches_text(names, current, n - 1) + names[n - 1] + seq![10u8]
    }
}

/// The list of the branches of the repository as it is shown.
pub fn print_branches(repo: &Repository) -> (r: Result<Vec<u8>, GitrError>)
    ensures
        ({
            let names = names_under(repo_refs(*repo), heads_prefix(), repo.refs@.len() as int);
            r matches Ok(text) && text@ == branches_text(
                names,
                base_name(repo.head@),
                names.len() as int,
            )
        }),
{
    let head = last_component(repo.head.as_slice());
    let branches = match get_branches(repo) {
        Ok(b) => b,
        Err(e) => {
            return Err(e);
        },
    };
    let ghost names = seqs(branches@);
    let mut res: Vec<u8> = Vec::new();
    let mut i: usize = 0;
    while i < branches.len()
        invariant
            i <= branches@.len(),
            names == seqs(branches@),
            res@ == branches_text(names, head@, i as int),
        decreases branches@.len() - i,
    {
        proof {
            reveal_strlit("* \x1b[92m");
            reveal_strlit("\x1b[0m\n");
        }
        assert(names[i as int] == branches@[i as int]@);
        if bytes_eq(head.as_slice(), branches[i].as_slice()) {
            push_all(&mut res, bytes_of("* \x1b[92m").as_slice());
            push_all(&mut res, branches[i].as_slice());
            push_all(&mut res, bytes_of("\x1b[0m\n").as_slice());
        } else {
            push_all(&mut res, branches[i].as_slice());
            res.push(10u8);
        }
        assert(res@ =~= branches_text(names, head@, i + 1));
        i = i + 1;
    }
    Ok(res)
}

/// Whether resolving `HEAD` fails with `e`: with `NoHead` where it points
/// at nothing, and with `FileReadError` where the reference that it points
/// at is not there.
pub open spec fn head_fails(repo: Repository, e: GitrError) -> bool {
    if repo.head@ == ascii("None"@) {
        e == GitrError::NoHead
    } else {
        e == GitrError::FileReadError && ref_current(repo_refs(repo), repo.head@) is None
    }
}

/// Makes a new branch named `branch` at the commit that `HEAD` resolves
/// to. Fails, changing nothing, with `BranchAlreadyExistsError` when there
/// is such a branch, and as resolving `HEAD` fails.
pub fn branch_newbranch_flag(branch: &[u8], repo: &mut Repository) -> (r: Result<(), GitrError>)
    ensures
        final(repo).head@ == old(repo).head@,
        final(repo).objects@ == old(repo).objects@,
        final(repo).index@ == old(repo).index@,
        final(repo).name@ == old(repo).name@,
        match r {
            Ok(_) => ref_current(repo_refs(*old(repo)), branch_ref(branch@)) is None && old(
                repo,
            ).head@ != ascii("None"@) && match ref_current(
                repo_refs(*old(repo)),
                old(repo).head@,
            ) {
                Some(current) => repo_refs(*final(repo)) == ref_put(
                    repo_refs(*old(repo)),
                    branch_ref(branch@),
                    current,
                ),
                None => false,
            },
            Err(e) => final(repo).refs@ == old(repo).refs@ && if ref_current(
                repo_refs(*old(repo)),
                branch_ref(branch@),
            ) is Some {
                e == GitrError::BranchAlreadyExistsError
            } else {
                head_fails(*old(repo), e)
            },
        },
{
    if branch_exists(branch, repo) {
        return Err(GitrError::BranchAlreadyExistsError);
    }
    let current_commit = match get_current_commit(repo) {
        Ok(id) => id,
        Err(e) => {
            return Err(e);
        },
    };
    let full = full_branch_name(branch);
    write_ref(&mut repo.refs, full.as_slice(), current_commit.as_slice());
    Ok(())
}

/// Deletes the branch named `branch`. Fails, changing nothing, with
/// `BranchNonExistsError` when there is no such branch, and with
/// `DeleteCurrentBranchError` when `HEAD` points at it or at nothing.
pub fn branch_delete_flag(branch: &[u8], repo: &mut Repository) -> (r: Result<(), GitrError>)
    ensures
        final(repo).head@ == old(repo).head@,
        final(repo).objects@ == old(repo).objects@,
        final(repo).index@ == old(repo).index@,
        match r {
            Ok(_) => repo_refs(*final(repo)) == ref_removed(
                repo_refs(*old(repo)),
                branch_ref(branch@),
            ) && ref_current(repo_refs(*old(repo)), branch_ref(branch@)) is Some && old(
                repo,
            ).head@ != branch_ref(branch@) && old(repo).head@ != ascii("None"@),
            Err(e) => final(repo).refs@ == old(repo).refs@ && if ref_current(
                repo_refs(*old(repo)),
                branch_ref(branch@),
            ) is None {
                e == GitrError::BranchNonExistsError
            } else {
                e == GitrError::DeleteCurrentBranchError && (old(repo).head@ == branch_ref(
                    branch@,
                ) || old(repo).head@ == ascii("None"@))
            },
        },
{
    if !branch_exists(branch, repo) {
        return Err(GitrError::BranchNonExistsError);
    }
    proof {
        reveal_strlit("None");
    }
    let full = full_branch_name(branch);
    if bytes_eq(repo.head.as_slice(), full.as_slice()) || bytes_eq(
        repo.head.as_slice(),
        bytes_of("None").as_slice(),
    ) {
        return Err(GitrError::DeleteCurrentBranchError);
    }
    remove_ref(&mut repo.refs, full.as_slice());
    Ok(())
}

/// Gives the branch `branch_origin` the name `branch_destination`; `HEAD`
/// follows it when it pointed at it. Fails, changing nothing, with
/// `BranchNonExistsError` when there is no branch of the old name, and with
/// `BranchAlreadyExistsError` when there is one of the new name.
pub fn branch_move_flag(branch_origin: &[u8], branch_destination: &[u8], repo: &mut Repository) -> (r:
    Result<(), GitrError>)
    ensures
        final(repo).objects@ == old(repo).objects@,
        final(repo).index@ == old(repo).index@,
        match r {
            Ok(_) => match ref_current(repo_refs(*old(repo)), branch_ref(branch_origin@)) {
                Some(id) => {
                    &&& ref_current(repo_refs(*old(repo)), branch_ref(branch_destination@))
                        is None
                    &&& repo_refs(*final(repo)) == ref_put(
                        ref_removed(repo_refs(*old(repo)), branch_ref(branch_origin@)),
                        branch_ref(branch_destination@),
                        id,
                    )
                    &&& final(repo).head@ == if old(repo).head@ == branch_ref(branch_origin@) {
                        branch_ref(branch_destination@)
                    } else {
                        old(repo).head@
                    }
                },
                None => false,
            },
            Err(e) => final(repo).refs@ == old(repo).refs@ && final(repo).head@ == old(
                repo,
            ).head@ && if ref_current(repo_refs(*old(repo)), branch_ref(branch_origin@))
                is None {
                e == GitrError::BranchNonExistsError
            } else {
                e == GitrError::BranchAlreadyExistsError && ref_current(
                    repo_refs(*old(repo)),
                    branch_ref(branch_destination@),
                ) is Some
            },
        },
{
    let id = match get_commit(branch_origin, repo) {
        Ok(id) => id,
        Err(_) => {
            return Err(GitrError::BranchNonExistsError);
        },
    };
    if branch_exists(branch_destination, repo) {
        return Err(GitrError::BranchAlreadyExistsError);
    }
    let old_name = full_branch_name(branch_origin);
    let new_name = full_branch_name(branch_destination);
    remove_ref(&mut repo.refs, old_name.as_slice());
    write_ref(&mut repo.refs, new_name.as_slice(), id.as_slice());
    if bytes_eq(repo.head.as_slice(), old_name.as_slice()) {
        repo.head = new_name;
    }
    Ok(())
}

/// Moves the branch that `HEAD` points at forward to the commit of the
/// branch `branch_name`. Fails, changing nothing, with `FileReadError` when
/// there is no such branch.
pub fn fast_forward_merge(branch_name: &[u8], repo: &mut Repository) -> (r: Result<(), GitrError>)
    ensures
        final(repo).head@ == old(repo).head@,
        final(repo).objects@ == old(repo).objects@,
        final(repo).index@ == old(repo).index@,
        match r {
            Ok(_) => match ref_current(repo_refs(*old(repo)), branch_ref(branch_name@)) {
                Some(commit) => repo_refs(*final(repo)) == ref_put(
                    repo_refs(*old(repo)),
                    old(repo).head@,
                    commit,
                ),
                None => false,
            },
            Err(e) => e == GitrError::FileReadError && final(repo).refs@ == old(repo).refs@
                && ref_current(repo_refs(*old(repo)), branch_ref(branch_name@)) is None,
        },
{
    let commit = match get_commit(branch_name, repo) {
        Ok(commit) => commit,
        Err(e) => {
            return Err(e);
        },
    };
    let head = repo.head.clone();
    write_ref(&mut repo.refs, head.as_slice(), commit.as_slice());
    Ok(())
}

/// The parents of a new commit: the commit that `HEAD` resolves to, when
/// there is one, and then `second_parent`, unless it is the "no parent"
/// marker.
pub open spec fn new_parents(current: Option<Seq<u8>>, second_parent: Seq<u8>) -> Seq<Seq<u8>> {
    match current {
        None => Seq::empty(),
        Some(id) => if second_parent == no_parent() {
            seq![id]
        } else {
            seq![id, second_parent]
        },
    }
}

/// Commits the tree `tree` on the branch that `HEAD` points at: makes the
/// commit, with the commit that the branch points at as its parent (and
/// `second_parent` after it, for a merge), saves it, and makes the branch
/// point at it. On a branch without commits the commit has no parents. The
/// client `cliente` is author and committer. Returns the id of the commit.
/// On failure the references stay as they were.
pub fn write_new_commit_and_branch(
    tree: Vec<u8>,
    message: &[u8],
    second_parent: Vec<u8>,
    cliente: &[u8],
    mail: &[u8],
    timestamp: usize,
    repo: &mut Repository,
) -> (r: Result<Vec<u8>, GitrError>)
    ensures
        final(repo).head@ == old(repo).head@,
        final(repo).name@ == old(repo).name@,
        final(repo).index@ == old(repo).index@,
        final(repo).remote@ == old(repo).remote@,
        ({
            let c = CommitView {
                tree: tree@,
                parents: new_parents(
                    ref_current(repo_refs(*old(repo)), old(repo).head@),
                    second_parent@,
                ),
                author: identity_line(cliente@, mail@, timestamp as nat),
                committer: identity_line(cliente@, mail@, timestamp as nat),
                message: unquoted(message@) + seq![10u8],
            };
            match r {
                Ok(id) => {
                    &&& commit_wf(c)
                    &&& id@ == object_id(ObjectKind::Commit, commit_payload(c))
                    &&& repo_refs(*final(repo)) == ref_put(
                        repo_refs(*old(repo)),
                        old(repo).head@,
                        id@,
                    )
                    &&& final(repo).objects@ == written(
                        old(repo).objects@,
                        id@,
                        zlib_stream(canonical(ObjectKind::Commit, commit_payload(c))),
                    )
                },
                Err(e) => final(repo).refs@ == old(repo).refs@ && final(repo).objects@ == old(
                    repo,
                ).objects@ && if commit_wf(c) {
                    e == GitrError::CompressionError && !holds(
                        old(repo).objects@,
                        object_id(ObjectKind::Commit, commit_payload(c)),
                    ) && !compresses(canonical(ObjectKind::Commit, commit_payload(c)))
                } else {
                    e == GitrError::MalformedObject
                },
            }
        }),
{
    proof {
        reveal_strlit("None");
    }
    let head = repo.head.clone();
    let mut parents: Vec<Vec<u8>> = Vec::new();
    let ghost current = ref_current(repo_refs(*repo), repo.head@);
    match ref_lookup(&repo.refs, head.as_slice()) {
        Some(id) => {
            parents.push(id);
            if !bytes_eq(second_parent.as_slice(), bytes_of("None").as_slice()) {
                parents.push(second_parent);
            }
        },
        None => {},
    }
    proof {
        assert(seqs(parents@) =~= new_parents(current, second_parent@));
    }
    let ghost wanted = seqs(parents@);
    let commit = match checked_commit(tree, parents, cliente, message, mail, timestamp) {
        Ok(commit) => commit,
        Err(e) => {
            return Err(e);
        },
    };
    match commit.save(&mut repo.objects) {
        Ok(_) => {},
        Err(e) => {
            return Err(e);
        },
    }
    let id = commit.get_hash();
    write_ref(&mut repo.refs, head.as_slice(), id.as_slice());
    Ok(id)
}

/// The commit with exactly the given parents.
pub(crate) fn checked_commit(
    tree: Vec<u8>,
    parents: Vec<Vec<u8>>,
    cliente: &[u8],
    message: &[u8],
    mail: &[u8],
    timestamp: usize,
) -> (r: Result<Commit, GitrError>)
    ensures
        ({
            let c = CommitView {
                tree: tree@,
                parents: seqs(parents@),
                author: identity_line(cliente@, mail@, timestamp as nat),
                committer: identity_line(cliente@, mail@, timestamp as nat),
                message: unquoted(message@) + seq![10u8],
            };
            match r {
                Ok(commit) => commit_wf(c) && commit@ == c,
                Err(e) => !commit_wf(c) && e == GitrError::MalformedObject,
            }
        }),
{
    proof {
        reveal_strlit("None");
    }
    if parents.len() > 0 && bytes_eq(parents[0].as_slice(), bytes_of("None").as_slice()) {
        proof {
            assert(seqs(parents@)[0] == parents@[0]@);
            assert(!is_object_id(no_parent()));
        }
        return Err(GitrError::MalformedObject);
    }
    proof {
        if parents@.len() > 0 {
            assert(seqs(parents@)[0] == parents@[0]@);
        }
    }
    Commit::new(tree, parents, cliente, cliente, message, mail, timestamp)
}

/// The commits of a branch from the commit stored under `id` back along
/// first parents, at most `fuel` of them after the first.
pub open spec fn first_parents(store: Seq<(Seq<u8>, Seq<u8>)>, id: Seq<u8>, fuel: nat) -> Result<
    Seq<Seq<u8>>,
    GitrError,
>
    decreases fuel,
{
    match stored_commit(store, id) {
        Err(e) => Err(e),
        Ok(c) => if c.parents.len() == 0 || fuel == 0 {
            Ok(seq![id])
        } else {
            match first_parents(store, c.parents[0], (fuel - 1) as nat) {
                Err(e) => Err(e),
                Ok(rest) => Ok(seq![id] + rest),
            }
        },
    }
}

/// The first parent of the commit stored under `commit`, if it has one.
fn first_parent(commit: &[u8], store: &ObjectStore) -> (r: Result<Option<Vec<u8>>, GitrError>)
    ensures
        match r {
            Ok(Some(parent)) => stored_commit(store@, commit@) matches Ok(c) && c.parents.len() > 0
                && parent@ == c.parents[0],
            Ok(None) => stored_commit(store@, commit@) matches Ok(c) && c.parents.len() == 0,
            Err(e) => stored_commit(store@, commit@) == Err::<CommitView, GitrError>(e),
        },
{
    let parents = match get_parent_commit(commit, store) {
        Ok(parents) => parents,
        Err(e) => {
            return Err(e);
        },
    };
    proof {
        reveal_strlit("None");
        assert(seqs(parents@)[0] == parents@[0]@);
        let c = stored_commit(store@, commit@).unwrap();
        if c.parents.len() > 0 {
            lemma_stored_commit_wf(store@, commit@);
            assert(is_object_id(c.parents[0]));
            assert(!is_object_id(no_parent()));
        }
    }
    if bytes_eq(parents[0].as_slice(), bytes_of("None").as_slice()) {
        Ok(None)
    } else {
        Ok(Some(parents[0].clone()))
    }
}

/// The ids of the commits of the branch `branch_name`, from its tip back
/// along first parents. Fails with `FileReadError` when there is no such
/// branch, and as reading a commit fails.
pub fn branch_commits_list(branch_name: &[u8], repo: &Repository) -> (r: Result<
    Vec<Vec<u8>>,
    GitrError,
>)
    ensures
        match ref_current(repo_refs(*repo), branch_ref(branch_name@)) {
            None => r == Err::<Vec<Vec<u8>>, GitrError>(GitrError::FileReadError),
            Some(tip) => match r {
                Ok(ids) => first_parents(repo.objects@, tip, repo.objects@.len()) == Ok::<
                    Seq<Seq<u8>>,
                    GitrError,
                >(seqs(ids@)),
                Err(e) => first_parents(repo.objects@, tip, repo.objects@.len()) == Err::<
                    Seq<Seq<u8>>,
                    GitrError,
                >(e),
            },
        },
{
    let mut commit = match get_commit(branch_name, repo) {
        Ok(commit) => commit,
        Err(e) => {
            return Err(e);
        },
    };
    let ghost tip = commit@;
    let ghost store = repo.objects@;
    let ghost total = repo.objects@.len();
    let mut commits: Vec<Vec<u8>> = Vec::new();
    let mut fuel: usize = repo.objects.objects.len();
    proof {
        assert(fuel == total);
        match first_parents(store, tip, total) {
            Ok(rest) => {
                assert(seqs(commits@) + rest =~= rest);
            },
            Err(_) => {},
        }
    }
    loop
        invariant_except_break
            store == repo.objects@,
            total == store.len(),
            ref_current(repo_refs(*repo), branch_ref(branch_name@)) == Some(tip),
            first_parents(store, tip, total) == match first_parents(store, commit@, fuel as nat) {
                Ok(rest) => Ok::<Seq<Seq<u8>>, GitrError>(seqs(commits@) + rest),
                Err(e) => Err::<Seq<Seq<u8>>, GitrError>(e),
            },
        ensures
            store == repo.objects@,
            total == store.len(),
            ref_current(repo_refs(*repo), branch_ref(branch_name@)) == Some(tip),
            first_parents(store, tip, total) == Ok::<Seq<Seq<u8>>, GitrError>(seqs(commits@)),
        decreases fuel,
    {
        let next = match first_parent(commit.as_slice(), &repo.objects) {
            Ok(next) => next,
            Err(e) => {
                return Err(e);
            },
        };
        let ghost before = seqs(commits@);
        let ghost this = commit@;
        commits.push(commit);
        assert(seqs(commits@) =~= before + seq![this]);
        match next {
            Some(parent) => {
                if fuel == 0 {
                    break ;
                }
                proof {
                    match first_parents(store, parent@, (fuel - 1) as nat) {
                        Ok(rest) => {
                            assert(seqs(commits@) + rest =~= before + (seq![this] + rest));
                        },
                        Err(_) => {},
                    }
                }
                commit = parent;
                fuel = fuel - 1;
            },
            None => {
                break ;
            },
        }
    }
    Ok(commits)
}

} // verus!
