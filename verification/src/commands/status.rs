use crate::commands::snapshot::{current_entries, get_current_commit_hashmap};
use crate::commands::staging::{get_index_hashmap, staged_files};
use crate::file_manager::{get_current_commit, lemma_lookup, lookup, repo_refs, Repository};
use crate::gitr_errors::GitrError;
use crate::server::server_utils::ref_current;
use crate::text::{
    ascii, bytes_eq, bytes_of, contains_text, find_byte, find_from, has_text, lines, lines_of,
    list_contains, push_all, push_range, replace_text, replaced, seqs, split, split_on,
};
use vstd::prelude::*;

verus! {

/// The byte strings of a list of files: pairs of a path and the id of the
/// blob that holds what the file holds.
pub open spec fn files_view(v: Seq<(Vec<u8>, Vec<u8>)>) -> Seq<(Seq<u8>, Seq<u8>)> {
    Seq::new(v.len(), |i: int| (v[i].0@, v[i].1@))
}

/// The id that `files` gives for `path`, the first if there are several.
pub fn file_id(files: &Vec<(Vec<u8>, Vec<u8>)>, path: &[u8]) -> (r: Option<Vec<u8>>)
    ensures
        match r {
            Some(id) => lookup(files_view(files@), path@) == Some(id@),
            None => lookup(files_view(files@), path@) is None,
        },
{
    let ghost all = files_view(files@);
    let mut i: usize = 0;
    while i < files.len()
        invariant
            i <= files@.len(),
            all == files_view(files@),
            forall|j: int| 0 <= j < i ==> (#[trigger] all[j]).0 != path@,
        decreases files@.len() - i,
    {
        if bytes_eq(files[i].0.as_slice(), path) {
            proof {
                lemma_lookup(all, path@);
                assert(all[i as int].0 == path@);
                let data = lookup(all, path@).unwrap();
                let k = choose|k: int|
                    0 <= k < all.len() && #[trigger] all[k] == (path@, data) && forall|j: int|
                        0 <= j < k ==> (#[trigger] all[j]).0 != path@;
                assert(k == i);
            }
            return Some(files[i].1.clone());
        }
        i = i + 1;
    }
    proof {
        lemma_lookup(all, path@);
    }
    None
}

/// The paths of those of the first `n` of `files` that `keep` holds of, in
/// order.
pub open spec fn chosen(
    files: Seq<(Seq<u8>, Seq<u8>)>,
    keep: spec_fn((Seq<u8>, Seq<u8>)) -> bool,
    n: int,
) -> Seq<Seq<u8>>
    decreases n,
{
    if n <= 0 {
        Seq::empty()
    } else if keep(files[n - 1]) {
        chosen(files, keep, n - 1).push(files[n - 1].0)
    } else {
        chosen(files, keep, n - 1)
    }
}

/// Holds of a file that `work` has no file for.
pub open spec fn gone_from(work: Seq<(Seq<u8>, Seq<u8>)>) -> spec_fn((Seq<u8>, Seq<u8>)) -> bool {
    |file: (Seq<u8>, Seq<u8>)| lookup(work, file.0) is None
}

/// Holds of a file that neither the index nor the commit has.
pub open spec fn untracked_in(
    index: Seq<(Seq<u8>, Seq<u8>)>,
    commit: Seq<(Seq<u8>, Seq<u8>)>,
) -> spec_fn((Seq<u8>, Seq<u8>)) -> bool {
    |file: (Seq<u8>, Seq<u8>)| lookup(index, file.0) is None && lookup(commit, file.0) is None
}

/// Holds of a file that differs from what the index has for it, or, where
/// the index does not have it, from what the commit has for it.
pub open spec fn changed_against(
    index: Seq<(Seq<u8>, Seq<u8>)>,
    commit: Seq<(Seq<u8>, Seq<u8>)>,
) -> spec_fn((Seq<u8>, Seq<u8>)) -> bool {
    |file: (Seq<u8>, Seq<u8>)|
        match lookup(index, file.0) {
            Some(id) => id != file.1,
            None => match lookup(commit, file.0) {
                Some(id) => id != file.1,
                None => false,
            },
        }
}

/// Holds of a file of the index that the commit does not have.
pub open spec fn new_against(commit: Seq<(Seq<u8>, Seq<u8>)>) -> spec_fn(
    (Seq<u8>, Seq<u8>),
) -> bool {
    |file: (Seq<u8>, Seq<u8>)| lookup(commit, file.0) is None
}

/// Holds of a file of the index that the commit has with another id, and
/// that is not among `not_staged`.
pub open spec fn staged_change(commit: Seq<(Seq<u8>, Seq<u8>)>, not_staged: Seq<Seq<u8>>) -> spec_fn(
    (Seq<u8>, Seq<u8>),
) -> bool {
    |file: (Seq<u8>, Seq<u8>)|
        match lookup(commit, file.0) {
            Some(id) => id != file.1 && !not_staged.contains(file.0),
            None => false,
        }
}

/// The files that are not staged and those that are untracked, given the
/// files of the working directory, of the index and of the current commit.
/// Not staged are the files of the index that the working directory lacks,
/// and then the files of the working directory that differ from the index
/// or, where the index lacks them, from the commit. Untracked are the
/// files of the working directory that neither the index nor the commit
/// has.
pub fn get_untracked_notstaged_files(
    work: &Vec<(Vec<u8>, Vec<u8>)>,
    index: &Vec<(Vec<u8>, Vec<u8>)>,
    commit: &Vec<(Vec<u8>, Vec<u8>)>,
) -> (r: (Vec<Vec<u8>>, Vec<Vec<u8>>))
    ensures
        seqs(r.0@) == chosen(
            files_view(index@),
            gone_from(files_view(work@)),
            index@.len() as int,
        ) + chosen(
            files_view(work@),
            changed_against(files_view(index@), files_view(commit@)),
            work@.len() as int,
        ),
        seqs(r.1@) == chosen(
            files_view(work@),
            untracked_in(files_view(index@), files_view(commit@)),
            work@.len() as int,
        ),
{
    let ghost w = files_view(work@);
    let ghost x = files_view(index@);
    let ghost c = files_view(commit@);
    let mut not_staged: Vec<Vec<u8>> = Vec::new();
    let mut untracked_files: Vec<Vec<u8>> = Vec::new();
    let mut i: usize = 0;
    assert(seqs(not_staged@) =~= chosen(x, gone_from(w), 0));
    while i < index.len()
        invariant
            i <= index@.len(),
            w == files_view(work@),
            x == files_view(index@),
            seqs(not_staged@) == chosen(x, gone_from(w), i as int),
        decreases index@.len() - i,
    {
        let ghost before = seqs(not_staged@);
        if file_id(work, index[i].0.as_slice()).is_none() {
            not_staged.push(index[i].0.clone());
            assert(seqs(not_staged@) =~= before.push(x[i as int].0));
        }
        assert(x[i as int].0 == index@[i as int].0@);
        i = i + 1;
    }
    let ghost first = seqs(not_staged@);
    let mut k: usize = 0;
    assert(seqs(not_staged@) =~= first + chosen(w, changed_against(x, c), 0));
    assert(seqs(untracked_files@) =~= chosen(w, untracked_in(x, c), 0));
    while k < work.len()
        invariant
            k <= work@.len(),
            w == files_view(work@),
            x == files_view(index@),
            c == files_view(commit@),
            seqs(not_staged@) == first + chosen(w, changed_against(x, c), k as int),
            seqs(untracked_files@) == chosen(w, untracked_in(x, c), k as int),
        decreases work@.len() - k,
    {
        let ghost before = seqs(not_staged@);
        let ghost before_untracked = seqs(untracked_files@);
        let ghost sofar = chosen(w, changed_against(x, c), k as int);
        assert(w[k as int] == (work@[k as int].0@, work@[k as int].1@));
        let in_index = file_id(index, work[k].0.as_slice());
        let in_commit = file_id(commit, work[k].0.as_slice());
        let changed = match &in_index {
            Some(id) => !bytes_eq(id.as_slice(), work[k].1.as_slice()),
            None => match &in_commit {
                Some(id) => !bytes_eq(id.as_slice(), work[k].1.as_slice()),
                None => false,
            },
        };
        if in_index.is_none() && in_commit.is_none() {
            untracked_files.push(work[k].0.clone());
            assert(seqs(untracked_files@) =~= before_untracked.push(w[k as int].0));
        }
        if changed {
            not_staged.push(work[k].0.clone());
            assert(seqs(not_staged@) =~= before.push(w[k as int].0));
            assert(before.push(w[k as int].0) =~= first + sofar.push(w[k as int].0));
        }
        k = k + 1;
    }
    (not_staged, untracked_files)
}

/// The files of the index that a commit would bring in as new, and those
/// that it would bring in as modified: new are those that the current
/// commit does not have, modified those that it has with another id and
/// that are not among `not_staged`.
pub fn get_tobe_commited_files(
    not_staged: &Vec<Vec<u8>>,
    index: &Vec<(Vec<u8>, Vec<u8>)>,
    commit: &Vec<(Vec<u8>, Vec<u8>)>,
) -> (r: (Vec<Vec<u8>>, Vec<Vec<u8>>))
    ensures
        seqs(r.0@) == chosen(
            files_view(index@),
            new_against(files_view(commit@)),
            index@.len() as int,
        ),
        seqs(r.1@) == chosen(
            files_view(index@),
            staged_change(files_view(commit@), seqs(not_staged@)),
            index@.len() as int,
        ),
{
    let ghost x = files_view(index@);
    let ghost c = files_view(commit@);
    let ghost ns = seqs(not_staged@);
    let mut new_files: Vec<Vec<u8>> = Vec::new();
    let mut modified_files: Vec<Vec<u8>> = Vec::new();
    let mut i: usize = 0;
    assert(seqs(new_files@) =~= chosen(x, new_against(c), 0));
    assert(seqs(modified_files@) =~= chosen(x, staged_change(c, ns), 0));
    while i < index.len()
        invariant
            i <= index@.len(),
            x == files_view(index@),
            c == files_view(commit@),
            ns == seqs(not_staged@),
            seqs(new_files@) == chosen(x, new_against(c), i as int),
            seqs(modified_files@) == chosen(x, staged_change(c, ns), i as int),
        decreases index@.len() - i,
    {
        let ghost before_new = seqs(new_files@);
        let ghost before_modified = seqs(modified_files@);
        assert(x[i as int] == (index@[i as int].0@, index@[i as int].1@));
        match file_id(commit, index[i].0.as_slice()) {
            None => {
                new_files.push(index[i].0.clone());
                assert(seqs(new_files@) =~= before_new.push(x[i as int].0));
            },
            Some(id) => {
                if !bytes_eq(id.as_slice(), index[i].1.as_slice()) && !list_contains(
                    not_staged,
                    index[i].0.as_slice(),
                ) {
                    modified_files.push(index[i].0.clone());
                    assert(seqs(modified_files@) =~= before_modified.push(x[i as int].0));
                }
            },
        }
        i = i + 1;
    }
    (new_files, modified_files)
}

/// A path as the status shows it: what follows its first slash, or all of
/// it where it has none.
pub open spec fn shown_name(file: Seq<u8>) -> Seq<u8> {
    let at = find_from(file, 47, 0);
    if 0 <= at < file.len() {
        file.subrange(at + 1, file.len() as int)
    } else {
        file
    }
}

/// What starts a line in green: a tab and the colour's escape sequence.
pub open spec fn green() -> Seq<u8> {
    seq![9u8, 27u8] + ascii("[92m"@)
}

/// What starts a line in red: a tab and the colour's escape sequence.
pub open spec fn red() -> Seq<u8> {
    seq![9u8, 27u8] + ascii("[31m"@)
}

/// What ends a coloured line: the escape sequence that ends the colour, and
/// a line feed.
pub open spec fn reset() -> Seq<u8> {
    seq![27u8] + ascii("[0m"@) + seq![10u8]
}

/// One line of the status: a file under a label, in a colour.
pub open spec fn status_line(in_red: bool, label: Seq<u8>, file: Seq<u8>) -> Seq<u8> {
    (if in_red {
        red()
    } else {
        green()
    }) + label + shown_name(file) + reset()
}

/// Appends a line of the status to `out`.
fn push_status_line(out: &mut Vec<u8>, in_red: bool, label: &str, file: &[u8])
    requires
        label.is_ascii(),
    ensures
        final(out)@ == old(out)@ + status_line(in_red, ascii(label@), file@),
{
    proof {
        reveal_strlit("[92m");
        reveal_strlit("[31m");
        reveal_strlit("[0m");
    }
    out.push(9u8);
    out.push(27u8);
    if in_red {
        push_all(out, bytes_of("[31m").as_slice());
    } else {
        push_all(out, bytes_of("[92m").as_slice());
    }
    push_all(out, bytes_of(label).as_slice());
    let at = find_byte(file, 47u8, 0);
    if at < file.len() {
        push_range(out, file, at + 1, file.len());
    } else {
        push_all(out, file);
    }
    out.push(27u8);
    push_all(out, bytes_of("[0m").as_slice());
    out.push(10u8);
    assert(out@ =~= old(out)@ + status_line(in_red, ascii(label@), file@));
}

/// The lines of the first `n` of `files`, all under one label and in one
/// colour.
pub open spec fn status_lines(in_red: bool, label: Seq<u8>, files: Seq<Seq<u8>>, n: int) -> Seq<u8>
    decreases n,
{
    if n <= 0 {
        Seq::empty()
    } else {
        status_lines(in_red, label, files, n - 1) + status_line(in_red, label, files[n - 1])
    }
}

/// Appends the lines of `files` to `out`.
fn push_status_lines(out: &mut Vec<u8>, in_red: bool, label: &str, files: &Vec<Vec<u8>>)
    requires
        label.is_ascii(),
    ensures
        final(out)@ == old(out)@ + status_lines(
            in_red,
            ascii(label@),
            seqs(files@),
            files@.len() as int,
        ),
{
    let ghost start = out@;
    let ghost all = seqs(files@);
    let mut i: usize = 0;
    assert(out@ =~= start + status_lines(in_red, ascii(label@), all, 0));
    while i < files.len()
        invariant
            i <= files@.len(),
            label.is_ascii(),
            all == seqs(files@),
            out@ == start + status_lines(in_red, ascii(label@), all, i as int),
        decreases files@.len() - i,
    {
        let ghost before = status_lines(in_red, ascii(label@), all, i as int);
        push_status_line(out, in_red, label, files[i].as_slice());
        assert(all[i as int] == files@[i as int]@);
        assert(out@ =~= start + (before + status_line(in_red, ascii(label@), all[i as int])));
        i = i + 1;
    }
}

/// The part of the status on what a commit would bring in: nothing where
/// there is no such file, and else two heading lines, the new files and the
/// modified ones.
pub open spec fn staged_text(new_files: Seq<Seq<u8>>, modified_files: Seq<Seq<u8>>) -> Seq<u8> {
    if new_files.len() == 0 && modified_files.len() == 0 {
        Seq::empty()
    } else {
        ascii("Changes to be committed:"@) + seq![10u8] + ascii(
            "  (use \"rm <file>...\" to unstage)"@,
        ) + seq![10u8] + status_lines(
            false,
            ascii("new file:   "@),
            new_files,
            new_files.len() as int,
        ) + status_lines(
            false,
            ascii("modified:   "@),
            modified_files,
            modified_files.len() as int,
        )
    }
}

/// The part of the status on what a commit would bring in.
pub fn get_status_files_to_be_comited(new_files: &Vec<Vec<u8>>, modified_files: &Vec<Vec<u8>>) -> (r:
    Result<Vec<u8>, GitrError>)
    ensures
        r matches Ok(text) && text@ == staged_text(seqs(new_files@), seqs(modified_files@)),
{
    let mut res: Vec<u8> = Vec::new();
    if new_files.len() > 0 || modified_files.len() > 0 {
        proof {
            reveal_strlit("Changes to be committed:");
            reveal_strlit("  (use \"rm <file>...\" to unstage)");
            reveal_strlit("new file:   ");
            reveal_strlit("modified:   ");
        }
        push_all(&mut res, bytes_of("Changes to be committed:").as_slice());
        res.push(10u8);
        push_all(&mut res, bytes_of("  (use \"rm <file>...\" to unstage)").as_slice());
        res.push(10u8);
        push_status_lines(&mut res, false, "new file:   ", new_files);
        push_status_lines(&mut res, false, "modified:   ", modified_files);
        assert(res@ =~= staged_text(seqs(new_files@), seqs(modified_files@)));
    }
    Ok(res)
}

/// The lines of the first `n` of the files that are not staged: as deleted
/// where there is an index that has the file and the working directory
/// lacks it, and else as modified.
pub open spec fn unstaged_lines(
    files: Seq<Seq<u8>>,
    index: Seq<(Seq<u8>, Seq<u8>)>,
    hayindex: bool,
    work: Seq<(Seq<u8>, Seq<u8>)>,
    n: int,
) -> Seq<u8>
    decreases n,
{
    if n <= 0 {
        Seq::empty()
    } else {
        unstaged_lines(files, index, hayindex, work, n - 1) + if hayindex && lookup(
            index,
            files[n - 1],
        ) is Some && lookup(work, files[n - 1]) is None {
            status_line(true, ascii("deleted:   "@), files[n - 1])
        } else {
            status_line(false, ascii("modified   "@), files[n - 1])
        }
    }
}

/// The part of the status on the files that are not staged: nothing where
/// there is none, and else three heading lines and a line for each.
pub open spec fn unstaged_text(
    files: Seq<Seq<u8>>,
    index: Seq<(Seq<u8>, Seq<u8>)>,
    hayindex: bool,
    work: Seq<(Seq<u8>, Seq<u8>)>,
) -> Seq<u8> {
    if files.len() == 0 {
        Seq::empty()
    } else {
        ascii("Changes not staged for commit:"@) + seq![10u8] + ascii(
            "  (use \"add <file>...\" to update what will be committed)"@,
        ) + seq![10u8] + ascii(
            "  (use \"rm <file>...\" to discard changes in working directory)"@,
        ) + seq![10u8] + unstaged_lines(files, index, hayindex, work, files.len() as int)
    }
}

/// The part of the status on the files that are not staged.
pub fn get_status_files_not_staged(
    not_staged: &Vec<Vec<u8>>,
    index: &Vec<(Vec<u8>, Vec<u8>)>,
    hayindex: bool,
    work: &Vec<(Vec<u8>, Vec<u8>)>,
) -> (r: Result<Vec<u8>, GitrError>)
    ensures
        r matches Ok(text) && text@ == unstaged_text(
            seqs(not_staged@),
            files_view(index@),
            hayindex,
            files_view(work@),
        ),
{
    let mut res: Vec<u8> = Vec::new();
    if not_staged.len() == 0 {
        return Ok(res);
    }
    proof {
        reveal_strlit("Changes not staged for commit:");
        reveal_strlit("  (use \"add <file>...\" to update what will be committed)");
        reveal_strlit("  (use \"rm <file>...\" to discard changes in working directory)");
    }
    push_all(&mut res, bytes_of("Changes not staged for commit:").as_slice());
    res.push(10u8);
    push_all(
        &mut res,
        bytes_of("  (use \"add <file>...\" to update what will be committed)").as_slice(),
    );
    res.push(10u8);
    push_all(
        &mut res,
        bytes_of("  (use \"rm <file>...\" to discard changes in working directory)").as_slice(),
    );
    res.push(10u8);
    let ghost start = res@;
    let ghost files = seqs(not_staged@);
    let ghost x = files_view(index@);
    let ghost w = files_view(work@);
    let mut i: usize = 0;
    assert(res@ =~= start + unstaged_lines(files, x, hayindex, w, 0));
    while i < not_staged.len()
        invariant
            i <= not_staged@.len(),
            files == seqs(not_staged@),
            x == files_view(index@),
            w == files_view(work@),
            res@ == start + unstaged_lines(files, x, hayindex, w, i as int),
        decreases not_staged@.len() - i,
    {
        proof {
            reveal_strlit("deleted:   ");
            reveal_strlit("modified   ");
        }
        let ghost before = unstaged_lines(files, x, hayindex, w, i as int);
        let ghost had = res@;
        assert(files[i as int] == not_staged@[i as int]@);
        if hayindex && file_id(index, not_staged[i].as_slice()).is_some() && file_id(
            work,
            not_staged[i].as_slice(),
        ).is_none() {
            push_status_line(&mut res, true, "deleted:   ", not_staged[i].as_slice());
        } else {
            push_status_line(&mut res, false, "modified   ", not_staged[i].as_slice());
        }
        assert(res@ =~= start + unstaged_lines(files, x, hayindex, w, i + 1)) by {
            assert(res@ == had + (res@.subrange(had.len() as int, res@.len() as int)));
        }
        i = i + 1;
    }
    assert(res@ =~= unstaged_text(files, x, hayindex, w));
    Ok(res)
}

/// The part of the status on the untracked files: nothing where there is
/// none, and else two heading lines, a line for each in red, and, where
/// there is no index, a closing remark.
pub open spec fn untracked_text(files: Seq<Seq<u8>>, hayindex: bool) -> Seq<u8> {
    if files.len() == 0 {
        Seq::empty()
    } else {
        ascii("Untracked files:"@) + seq![10u8] + ascii(
            "  (use \"add <file>...\" to include in what will be committed)"@,
        ) + seq![10u8] + status_lines(true, Seq::empty(), files, files.len() as int) + if hayindex {
            Seq::empty()
        } else {
            ascii(
                "nothing added to commit but untracked files present (use \"add\" to track)"@,
            ) + seq![10u8]
        }
    }
}

/// The part of the status on the untracked files.
pub fn get_status_files_untracked(untracked_files: &Vec<Vec<u8>>, hayindex: bool) -> (r: Vec<u8>)
    ensures
        r@ == untracked_text(seqs(untracked_files@), hayindex),
{
    let mut res: Vec<u8> = Vec::new();
    if untracked_files.len() == 0 {
        return res;
    }
    proof {
        reveal_strlit("Untracked files:");
        reveal_strlit("  (use \"add <file>...\" to include in what will be committed)");
        reveal_strlit(
            "nothing added to commit but untracked files present (use \"add\" to track)",
        );
        reveal_strlit("");
        assert(ascii(""@) =~= Seq::<u8>::empty());
    }
    push_all(&mut res, bytes_of("Untracked files:").as_slice());
    res.push(10u8);
    push_all(
        &mut res,
        bytes_of("  (use \"add <file>...\" to include in what will be committed)").as_slice(),
    );
    res.push(10u8);
    push_status_lines(&mut res, true, "", untracked_files);
    if !hayindex {
        push_all(
            &mut res,
            bytes_of(
                "nothing added to commit but untracked files present (use \"add\" to track)",
            ).as_slice(),
        );
        res.push(10u8);
    }
    assert(res@ =~= untracked_text(seqs(untracked_files@), hayindex));
    res
}

/// The heading of the status: the branch that `HEAD` points at, which is
/// the third part of its name, parts being what stands between slashes;
/// an empty line; and a remark where `HEAD` resolves to no commit.
/// `NoHead` where the name has fewer than three parts.
pub open spec fn branch_heading(repo: Repository) -> Result<Seq<u8>, GitrError> {
    let parts = split_on(repo.head@, 47);
    if parts.len() < 3 {
        Err(GitrError::NoHead)
    } else {
        Ok(
            ascii("On branch "@) + parts[2] + seq![10u8, 10u8] + if repo.head@ == ascii("None"@)
                || ref_current(repo_refs(repo), repo.head@) is None {
                ascii("No commits yet"@) + seq![10u8]
            } else {
                Seq::empty()
            },
        )
    }
}

/// The heading of the status.
pub fn status_print_current_branch(repo: &Repository) -> (r: Result<Vec<u8>, GitrError>)
    ensures
        match r {
            Ok(text) => branch_heading(*repo) == Ok::<Seq<u8>, GitrError>(text@),
            Err(e) => branch_heading(*repo) == Err::<Seq<u8>, GitrError>(e),
        },
{
    proof {
        reveal_strlit("On branch ");
        reveal_strlit("No commits yet");
    }
    let parts = split(repo.head.as_slice(), 47u8);
    if parts.len() < 3 {
        return Err(GitrError::NoHead);
    }
    assert(seqs(parts@)[2] == parts@[2]@);
    let mut res = bytes_of("On branch ");
    push_all(&mut res, parts[2].as_slice());
    res.push(10u8);
    res.push(10u8);
    if get_current_commit(repo).is_err() {
        push_all(&mut res, bytes_of("No commits yet").as_slice());
        res.push(10u8);
    }
    assert(res@ =~= branch_heading(*repo).unwrap());
    Ok(res)
}

/// The status of the repository, given the files of the working
/// directory: the heading and an empty line; what a commit would bring
/// in; what is not staged; what is untracked; and a closing remark where
/// there is nothing of the three. It fails as the heading does, else with
/// `FileReadError` where the index cannot be read, else as reading the
/// current commit fails.
pub open spec fn status_text(work: Seq<(Seq<u8>, Seq<u8>)>, repo: Repository) -> Result<
    Seq<u8>,
    GitrError,
> {
    let commit = current_entries(repo);
    let index = if repo.index@.len() == 0 {
        Some(Seq::empty())
    } else {
        staged_files(repo.index@)
    };
    match branch_heading(repo) {
        Err(e) => Err(e),
        Ok(heading) => if index is None {
            Err(GitrError::FileReadError)
        } else {
            match commit {
                Err(e) => Err(e),
                Ok(c) => {
                    let x = index.unwrap();
                    let not_staged = chosen(x, gone_from(work), x.len() as int) + chosen(
                        work,
                        changed_against(x, c),
                        work.len() as int,
                    );
                    let untracked = chosen(work, untracked_in(x, c), work.len() as int);
                    let new_files = chosen(x, new_against(c), x.len() as int);
                    let modified = chosen(x, staged_change(c, not_staged), x.len() as int);
                    Ok(
                        heading + seq![10u8] + staged_text(new_files, modified) + unstaged_text(
                            not_staged,
                            x,
                            repo.index@.len() > 0,
                            work,
                        ) + untracked_text(untracked, repo.index@.len() > 0) + if new_files.len()
                            == 0 && modified.len() == 0 && not_staged.len() == 0
                            && untracked.len() == 0 {
                            ascii("nothing to commit, working tree clean"@) + seq![10u8]
                        } else {
                            Seq::empty()
                        },
                    )
                },
            }
        },
    }
}

/// The status of the repository, given the files of the working directory.
pub fn get_status(work: &Vec<(Vec<u8>, Vec<u8>)>, repo: &Repository) -> (r: Result<
    Vec<u8>,
    GitrError,
>)
    ensures
        match r {
            Ok(text) => status_text(files_view(work@), *repo) == Ok::<Seq<u8>, GitrError>(text@),
            Err(e) => status_text(files_view(work@), *repo) == Err::<Seq<u8>, GitrError>(e),
        },
{
    let mut res = match status_print_current_branch(repo) {
        Ok(text) => text,
        Err(e) => {
            return Err(e);
        },
    };
    res.push(10u8);
    let (index, hayindex) = match get_index_hashmap(repo) {
        Ok(found) => found,
        Err(e) => {
            return Err(e);
        },
    };
    assert(files_view(index@) =~= if repo.index@.len() == 0 {
        Seq::empty()
    } else {
        staged_files(repo.index@).unwrap()
    });
    let commit = match get_current_commit_hashmap(repo) {
        Ok(files) => files,
        Err(e) => {
            return Err(e);
        },
    };
    let (not_staged, untracked_files) = get_untracked_notstaged_files(work, &index, &commit);
    let (new_files, modified_files) = get_tobe_commited_files(&not_staged, &index, &commit);
    let staged = match get_status_files_to_be_comited(&new_files, &modified_files) {
        Ok(text) => text,
        Err(e) => {
            return Err(e);
        },
    };
    push_all(&mut res, staged.as_slice());
    let unstaged = match get_status_files_not_staged(&not_staged, &index, hayindex, work) {
        Ok(text) => text,
        Err(e) => {
            return Err(e);
        },
    };
    push_all(&mut res, unstaged.as_slice());
    let untracked = get_status_files_untracked(&untracked_files, hayindex);
    push_all(&mut res, untracked.as_slice());
    if new_files.len() == 0 && modified_files.len() == 0 && not_staged.len() == 0
        && untracked_files.len() == 0 {
        proof {
            reveal_strlit("nothing to commit, working tree clean");
        }
        push_all(&mut res, bytes_of("nothing to commit, working tree clean").as_slice());
        res.push(10u8);
    }
    assert(res@ =~= status_text(files_view(work@), *repo).unwrap());
    Ok(res)
}

/// What a line of the part of the status on files that are not staged
/// gives to the list of deleted files (`deleted` set) or of changed files
/// (`deleted` not set): the line without its label and with a line feed,
/// where it tells of such a file, and nothing else.
pub open spec fn listed_line(line: Seq<u8>, deleted: bool) -> Seq<u8> {
    if contains_text(line, ascii("deleted"@)) && deleted {
        replaced(line, ascii("deleted:   "@), Seq::empty()) + seq![10u8]
    } else if !deleted && (contains_text(line, ascii("modified"@)) || contains_text(
        line,
        ascii("deleted"@),
    )) {
        replaced(
            replaced(line, ascii("modified   "@), Seq::empty()),
            ascii("deleted:   "@),
            Seq::empty(),
        ) + seq![10u8]
    } else {
        Seq::empty()
    }
}

/// What the first `n` of `lines` give to the list.
pub open spec fn listed_lines(lines: Seq<Seq<u8>>, deleted: bool, n: int) -> Seq<u8>
    decreases n,
{
    if n <= 0 {
        Seq::empty()
    } else {
        listed_lines(lines, deleted, n - 1) + listed_line(lines[n - 1], deleted)
    }
}

/// The files that were deleted (`deleted` set) or changed in any way
/// (`deleted` not set) since they were staged, one to a line as the status
/// shows them, read out of the part `files_not_staged` of the status.
pub fn get_ls_files_deleted_modified(deleted: bool, files_not_staged: &[u8]) -> (r: Result<
    Vec<u8>,
    GitrError,
>)
    ensures
        r matches Ok(text) && text@ == listed_lines(
            lines_of(files_not_staged@),
            deleted,
            lines_of(files_not_staged@).len() as int,
        ),
{
    let all = lines(files_not_staged);
    let ghost lv = seqs(all@);
    let none: Vec<u8> = Vec::new();
    let mut res: Vec<u8> = Vec::new();
    let mut i: usize = 0;
    while i < all.len()
        invariant
            i <= all@.len(),
            lv == seqs(all@),
            none@.len() == 0,
            res@ == listed_lines(lv, deleted, i as int),
        decreases all@.len() - i,
    {
        proof {
            reveal_strlit("deleted");
            reveal_strlit("modified");
            reveal_strlit("deleted:   ");
            reveal_strlit("modified   ");
            assert(none@ =~= Seq::<u8>::empty());
        }
        let ghost before = res@;
        assert(lv[i as int] == all@[i as int]@);
        let line = all[i].as_slice();
        let has_deleted = has_text(line, bytes_of("deleted").as_slice());
        if has_deleted && deleted {
            let shown = replace_text(line, bytes_of("deleted:   ").as_slice(), none.as_slice());
            push_all(&mut res, shown.as_slice());
            res.push(10u8);
            assert(res@ =~= before + listed_line(lv[i as int], deleted));
        } else if !deleted && (has_text(line, bytes_of("modified").as_slice()) || has_deleted) {
            let first = replace_text(line, bytes_of("modified   ").as_slice(), none.as_slice());
            let shown = replace_text(
                first.as_slice(),
                bytes_of("deleted:   ").as_slice(),
                none.as_slice(),
            );
            push_all(&mut res, shown.as_slice());
            res.push(10u8);
            assert(res@ =~= before + listed_line(lv[i as int], deleted));
        } else {
            assert(res@ =~= before + listed_line(lv[i as int], deleted));
        }
        i = i + 1;
    }
    Ok(res)
}

} // verus!
