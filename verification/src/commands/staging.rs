use crate::commands::status::files_view;
use crate::file_manager::Repository;
use crate::gitr_errors::GitrError;
use crate::text::{ascii, bytes_eq, bytes_of, push_all, seqs, split, split_on};
use vstd::prelude::*;

verus! {

/// The line of the index for the file at `path` whose content is the blob
/// `id`: the mode of a file, the id, the stage `0` and the path, with a
/// space between them.
pub open spec fn index_line(path: Seq<u8>, id: Seq<u8>) -> Seq<u8> {
    ascii("100644 "@) + id + ascii(" 0 "@) + path
}

/// Executable `index_line`.
pub fn new_index_line(path: &[u8], id: &[u8]) -> (r: Vec<u8>)
    ensures
        r@ == index_line(path@, id@),
{
    proof {
        reveal_strlit("100644 ");
        reveal_strlit(" 0 ");
    }
    let mut out = bytes_of("100644 ");
    push_all(&mut out, id);
    push_all(&mut out, bytes_of(" 0 ").as_slice());
    push_all(&mut out, path);
    assert(out@ =~= index_line(path@, id@));
    out
}

/// The file that a line of the index stands for, as a pair of path and id:
/// its fourth and its second field, fields being what stands between
/// spaces. None where the line has fewer than four fields.
pub open spec fn line_file(line: Seq<u8>) -> Option<(Seq<u8>, Seq<u8>)> {
    let fields = split_on(line, 32);
    if fields.len() >= 4 {
        Some((fields[3], fields[1]))
    } else {
        None
    }
}

/// Executable `line_file`.
pub fn parse_index_line(line: &[u8]) -> (r: Option<(Vec<u8>, Vec<u8>)>)
    ensures
        match r {
            Some(file) => line_file(line@) == Some((file.0@, file.1@)),
            None => line_file(line@) is None,
        },
{
    let fields = split(line, 32u8);
    if fields.len() >= 4 {
        assert(seqs(fields@)[3] == fields@[3]@);
        assert(seqs(fields@)[1] == fields@[1]@);
        Some((fields[3].clone(), fields[1].clone()))
    } else {
        None
    }
}

/// The files that the first `n` of the lines of an index stand for, in
/// order; none where one of the lines stands for no file.
pub open spec fn index_files(lines: Seq<Seq<u8>>, n: int) -> Option<Seq<(Seq<u8>, Seq<u8>)>>
    decreases n,
{
    if n <= 0 {
        Some(Seq::empty())
    } else {
        match (index_files(lines, n - 1), line_file(lines[n - 1])) {
            (Some(files), Some(file)) => Some(files.push(file)),
            _ => None,
        }
    }
}

/// The files of the index whose text is `text`: one for each line.
pub open spec fn staged_files(text: Seq<u8>) -> Option<Seq<(Seq<u8>, Seq<u8>)>> {
    index_files(split_on(text, 10), split_on(text, 10).len() as int)
}

/// The files that the lines of an index stand for.
fn files_of_lines(lines: &Vec<Vec<u8>>) -> (r: Option<Vec<(Vec<u8>, Vec<u8>)>>)
    ensures
        match r {
            Some(files) => index_files(seqs(lines@), lines@.len() as int) == Some(
                files_view(files@),
            ),
            None => index_files(seqs(lines@), lines@.len() as int) is None,
        },
{
    let ghost all = seqs(lines@);
    let mut files: Vec<(Vec<u8>, Vec<u8>)> = Vec::new();
    let mut i: usize = 0;
    assert(files_view(files@) =~= Seq::<(Seq<u8>, Seq<u8>)>::empty());
    while i < lines.len()
        invariant
            i <= lines@.len(),
            all == seqs(lines@),
            index_files(all, i as int) == Some(files_view(files@)),
        decreases lines@.len() - i,
    {
        assert(all[i as int] == lines@[i as int]@);
        let ghost before = files_view(files@);
        match parse_index_line(lines[i].as_slice()) {
            Some(file) => {
                let ghost f = (file.0@, file.1@);
                files.push(file);
                assert(files_view(files@) =~= before.push(f));
            },
            None => {
                proof {
                    lemma_index_files_none(all, i as int + 1, lines@.len() as int);
                }
                return None;
            },
        }
        i = i + 1;
    }
    Some(files)
}

/// Once a line stands for no file, no longer run of lines has files.
proof fn lemma_index_files_none(lines: Seq<Seq<u8>>, n: int, m: int)
    requires
        0 <= n <= m,
        index_files(lines, n) is None,
    ensures
        index_files(lines, m) is None,
    decreases m - n,
{
    if n < m {
        lemma_index_files_none(lines, n, m - 1);
    }
}

/// The files of the index of the repository, and whether there is an
/// index. An empty text is no index. Fails with `FileReadError` where a
/// line of the index has fewer than four fields.
pub fn get_index_hashmap(repo: &Repository) -> (r: Result<(Vec<(Vec<u8>, Vec<u8>)>, bool), GitrError>)
    ensures
        match r {
            Ok((files, hayindex)) => if repo.index@.len() == 0 {
                files@.len() == 0 && !hayindex
            } else {
                hayindex && staged_files(repo.index@) == Some(files_view(files@))
            },
            Err(e) => e == GitrError::FileReadError && repo.index@.len() > 0 && staged_files(
                repo.index@,
            ) is None,
        },
{
    if repo.index.len() == 0 {
        return Ok((Vec::new(), false));
    }
    let lines = split(repo.index.as_slice(), 10u8);
    match files_of_lines(&lines) {
        Some(files) => Ok((files, true)),
        None => Err(GitrError::FileReadError),
    }
}

/// The first `n` of `lines`, with a line feed between one and the next.
pub open spec fn joined(lines: Seq<Seq<u8>>, n: int) -> Seq<u8>
    decreases n,
{
    if n <= 0 {
        Seq::empty()
    } else if n == 1 {
        lines[0]
    } else {
        joined(lines, n - 1) + seq![10u8] + lines[n - 1]
    }
}

/// Joins lines with a line feed between one and the next.
pub fn join_lines(lines: &Vec<Vec<u8>>) -> (r: Vec<u8>)
    ensures
        r@ == joined(seqs(lines@), lines@.len() as int),
{
    let ghost all = seqs(lines@);
    let mut out: Vec<u8> = Vec::new();
    let mut i: usize = 0;
    while i < lines.len()
        invariant
            i <= lines@.len(),
            all == seqs(lines@),
            out@ == joined(all, i as int),
        decreases lines@.len() - i,
    {
        assert(all[i as int] == lines@[i as int]@);
        let ghost before = out@;
        if i > 0 {
            out.push(10u8);
        }
        push_all(&mut out, lines[i].as_slice());
        assert(out@ =~= joined(all, i + 1));
        i = i + 1;
    }
    out
}

/// The place of the first of the first `n` lines that stands for the file
/// at `path`; `n` where there is none.
pub open spec fn line_of_path(lines: Seq<Seq<u8>>, path: Seq<u8>, n: int) -> int
    decreases n,
{
    if n <= 0 {
        0
    } else {
        let before = line_of_path(lines, path, n - 1);
        if before < n - 1 {
            before
        } else if line_file(lines[n - 1]) matches Some(file) && file.0 == path {
            n - 1
        } else {
            n
        }
    }
}

/// Executable `line_of_path`, on lines that all stand for files.
fn find_line(lines: &Vec<Vec<u8>>, path: &[u8]) -> (r: usize)
    ensures
        r == line_of_path(seqs(lines@), path@, lines@.len() as int),
        r <= lines@.len(),
{
    let ghost all = seqs(lines@);
    let mut i: usize = 0;
    while i < lines.len()
        invariant
            i <= lines@.len(),
            all == seqs(lines@),
            line_of_path(all, path@, i as int) == i,
        decreases lines@.len() - i,
    {
        assert(all[i as int] == lines@[i as int]@);
        let found = match parse_index_line(lines[i].as_slice()) {
            Some(file) => bytes_eq(file.0.as_slice(), path),
            None => false,
        };
        if found {
            proof {
                lemma_line_found(all, path@, i as int, lines@.len() as int);
            }
            return i;
        }
        i = i + 1;
    }
    i
}

/// A line that was found stays the one found among more lines.
proof fn lemma_line_found(lines: Seq<Seq<u8>>, path: Seq<u8>, k: int, n: int)
    requires
        0 <= k < n,
        line_of_path(lines, path, k + 1) == k,
    ensures
        line_of_path(lines, path, n) == k,
    decreases n - k,
{
    if k + 1 < n {
        lemma_line_found(lines, path, k, n - 1);
    }
}

/// The text of an index after the file at `path` was staged with the blob
/// `id`: the new line alone where there was no index; the text with the
/// first line for `path` replaced by the new line where there is one; and
/// else the text, a line feed and the new line.
pub open spec fn index_with(text: Seq<u8>, path: Seq<u8>, id: Seq<u8>) -> Seq<u8> {
    let lines = split_on(text, 10);
    let at = line_of_path(lines, path, lines.len() as int);
    if text.len() == 0 {
        index_line(path, id)
    } else if at < lines.len() {
        joined(lines.update(at, index_line(path, id)), lines.len() as int)
    } else {
        text + seq![10u8] + index_line(path, id)
    }
}

/// Stages the file at `path` with the blob `hash`: its line replaces the
/// line that the index has for `path`, or goes to the end of the index.
/// Nothing else of the repository changes.
pub fn add_to_index(path: &[u8], hash: &[u8], repo: &mut Repository) -> (r: Result<(), GitrError>)
    ensures
        r is Ok,
        final(repo).index@ == index_with(old(repo).index@, path@, hash@),
        final(repo).name == old(repo).name,
        final(repo).objects == old(repo).objects,
        final(repo).refs == old(repo).refs,
        final(repo).head == old(repo).head,
        final(repo).remote == old(repo).remote,
{
    let new_blob = new_index_line(path, hash);
    if repo.index.len() == 0 {
        repo.index = new_blob;
        return Ok(());
    }
    let mut lines = split(repo.index.as_slice(), 10u8);
    let at = find_line(&lines, path);
    if at < lines.len() {
        let ghost before = seqs(lines@);
        lines.set(at, new_blob);
        assert(seqs(lines@) =~= before.update(at as int, index_line(path@, hash@)));
        repo.index = join_lines(&lines);
    } else {
        repo.index.push(10u8);
        push_all(&mut repo.index, new_blob.as_slice());
    }
    Ok(())
}

/// The text of an index after the file `file` of the repository `name` was
/// taken out of it: the lines without the first that stands for the path
/// `name/file`; the text as it was where there is none.
pub open spec fn index_without(text: Seq<u8>, name: Seq<u8>, file: Seq<u8>) -> Seq<u8> {
    let lines = split_on(text, 10);
    let at = line_of_path(lines, name + seq![47u8] + file, lines.len() as int);
    if at < lines.len() {
        joined(lines.remove(at), lines.len() - 1)
    } else {
        text
    }
}

/// Takes the file `file_to_delete` out of the index, and tells whether the
/// index had it. Nothing else of the repository changes.
pub fn rm_from_index(file_to_delete: &[u8], repo: &mut Repository) -> (r: Result<bool, GitrError>)
    ensures
        final(repo).index@ == index_without(old(repo).index@, old(repo).name@, file_to_delete@),
        ({
            let lines = split_on(old(repo).index@, 10);
            let path = old(repo).name@ + seq![47u8] + file_to_delete@;
            r == Ok::<bool, GitrError>(line_of_path(lines, path, lines.len() as int) < lines.len())
        }),
        final(repo).name == old(repo).name,
        final(repo).objects == old(repo).objects,
        final(repo).refs == old(repo).refs,
        final(repo).head == old(repo).head,
        final(repo).remote == old(repo).remote,
{
    let mut path = repo.name.clone();
    path.push(47u8);
    push_all(&mut path, file_to_delete);
    assert(path@ =~= repo.name@ + seq![47u8] + file_to_delete@);
    let mut lines = split(repo.index.as_slice(), 10u8);
    let at = find_line(&lines, path.as_slice());
    if at < lines.len() {
        let ghost before = seqs(lines@);
        lines.remove(at);
        assert(seqs(lines@) =~= before.remove(at as int));
        repo.index = join_lines(&lines);
        Ok(true)
    } else {
        Ok(false)
    }
}

} // verus!
