use crate::commands::command_utils::{
    branch_exists, branch_newbranch_flag, branch_ref, head_fails,
};
use crate::commands::handler::is_space;
use crate::commands::snapshot::{commit_files, get_commit_hashmap};
use crate::commands::merge::{blob_data, read_file_data_from_blob_hash};
use crate::commands::staging::{add_to_index, get_index_hashmap, index_with, staged_files};
use crate::commands::status::{file_id, files_view, shown_name};
use crate::file_manager::{holds, lookup, repo_refs, written, ObjectStore, Repository};
use crate::codec::{compresses, zlib_stream};
use crate::gitr_errors::GitrError;
use crate::objects::blob::Blob;
use crate::objects::git_object::{canonical, hash_object, object_id, ObjectKind};
use crate::server::server_utils::{ref_current, ref_put};
use crate::text::{
    ascii, bytes_eq, bytes_of, contains_text, copy_range, find_byte, has_text, lines, lines_of,
    list_contains, push_all, push_range, seqs, split, split_on,
};
use vstd::prelude::*;

verus! {

/// Each of the first `n` of `lines` with `lead` before it.
pub open spec fn led_by(lead: Seq<u8>, lines: Seq<Seq<u8>>, n: int) -> Seq<Seq<u8>>
    decreases n,
{
    if n <= 0 {
        Seq::empty()
    } else {
        led_by(lead, lines, n - 1).push(lead + lines[n - 1])
    }
}

/// Those of the first `n` of `paths` that `among` holds, in order.
pub open spec fn held_paths(paths: Seq<Seq<u8>>, among: Seq<Seq<u8>>, n: int) -> Seq<Seq<u8>>
    decreases n,
{
    if n <= 0 {
        Seq::empty()
    } else if among.contains(paths[n - 1]) {
        held_paths(paths, among, n - 1).push(paths[n - 1])
    } else {
        held_paths(paths, among, n - 1)
    }
}

/// The paths that are ignored, given the text of the ignore file of the
/// repository named `repo`: a path is ignored when it is the name of the
/// repository followed by a line of that text.
pub open spec fn ignored(paths: Seq<Seq<u8>>, gitignore: Seq<u8>, repo: Seq<u8>) -> Seq<Seq<u8>> {
    let rules = split_on(gitignore, 10);
    held_paths(paths, led_by(repo, rules, rules.len() as int), paths.len() as int)
}

/// Those of `paths` that the ignore file with the text `gitignore` tells
/// to leave alone.
pub fn check_ignore_(paths: &Vec<Vec<u8>>, gitignore: &[u8], repo: &[u8]) -> (r: Result<
    Vec<Vec<u8>>,
    GitrError,
>)
    ensures
        r matches Ok(found) && seqs(found@) == ignored(seqs(paths@), gitignore@, repo@),
{
    let lineas_ignore = split(gitignore, 10u8);
    let ghost rules = seqs(lineas_ignore@);
    let mut lineas_full: Vec<Vec<u8>> = Vec::new();
    let mut i: usize = 0;
    assert(seqs(lineas_full@) =~= led_by(repo@, rules, 0));
    while i < lineas_ignore.len()
        invariant
            i <= lineas_ignore@.len(),
            rules == seqs(lineas_ignore@),
            seqs(lineas_full@) == led_by(repo@, rules, i as int),
        decreases lineas_ignore@.len() - i,
    {
        let ghost before = seqs(lineas_full@);
        let mut full = copy_range(repo, 0, repo.len());
        push_all(&mut full, lineas_ignore[i].as_slice());
        assert(full@ =~= repo@ + rules[i as int]);
        lineas_full.push(full);
        assert(seqs(lineas_full@) =~= before.push(repo@ + rules[i as int]));
        i = i + 1;
    }
    let ghost among = seqs(lineas_full@);
    let ghost all = seqs(paths@);
    let mut ignored_paths: Vec<Vec<u8>> = Vec::new();
    let mut k: usize = 0;
    assert(seqs(ignored_paths@) =~= held_paths(all, among, 0));
    while k < paths.len()
        invariant
            k <= paths@.len(),
            all == seqs(paths@),
            among == seqs(lineas_full@),
            seqs(ignored_paths@) == held_paths(all, among, k as int),
        decreases paths@.len() - k,
    {
        let ghost before = seqs(ignored_paths@);
        assert(all[k as int] == paths@[k as int]@);
        if list_contains(&lineas_full, paths[k].as_slice()) {
            ignored_paths.push(paths[k].clone());
            assert(seqs(ignored_paths@) =~= before.push(all[k as int]));
        }
        k = k + 1;
    }
    Ok(ignored_paths)
}

/// Whether the ignore file tells to leave `path` alone.
pub fn path_is_ignored(path: &[u8], gitignore: &[u8], repo: &[u8]) -> (r: Result<bool, GitrError>)
    ensures
        r == Ok::<bool, GitrError>(ignored(seq![path@], gitignore@, repo@).len() > 0),
{
    let mut paths: Vec<Vec<u8>> = Vec::new();
    paths.push(copy_range(path, 0, path.len()));
    assert(path@.subrange(0, path@.len() as int) =~= path@);
    assert(seqs(paths@) =~= seq![path@]);
    match check_ignore_(&paths, gitignore, repo) {
        Ok(found) => Ok(found.len() > 0),
        Err(e) => Err(e),
    }
}

/// Whether staging the file at `path` that holds `data` fails: the file
/// is not ignored, the store does not hold its blob yet, and the
/// compressor fails on the canonical form of the blob.
pub open spec fn blocks(
    state: (Seq<u8>, Seq<(Seq<u8>, Seq<u8>)>),
    path: Seq<u8>,
    data: Seq<u8>,
    gitignore: Seq<u8>,
    name: Seq<u8>,
) -> bool {
    ignored(seq![path], gitignore, name).len() == 0 && !holds(
        state.1,
        object_id(ObjectKind::Blob, data),
    ) && !compresses(canonical(ObjectKind::Blob, data))
}

/// Stages the file at `file_path` that holds `raw_data`, unless the ignore
/// file tells to leave it alone: its blob is saved, and the index comes to
/// hold the path with the id of the blob. It fails with `CompressionError`,
/// changing nothing, exactly when the blob has to be stored and the
/// compressor fails on it.
pub fn save_and_add_blob_to_index(
    file_path: &[u8],
    raw_data: Vec<u8>,
    gitignore: &[u8],
    repo: &mut Repository,
) -> (r: Result<(), GitrError>)
    ensures
        final(repo).name == old(repo).name,
        final(repo).refs == old(repo).refs,
        final(repo).head == old(repo).head,
        final(repo).remote == old(repo).remote,
        ({
            let id = object_id(ObjectKind::Blob, raw_data@);
            if ignored(seq![file_path@], gitignore@, old(repo).name@).len() > 0 {
                r is Ok && final(repo).index@ == old(repo).index@ && final(repo).objects@ == old(repo).objects@
            } else {
                match r {
                    Ok(_) => !blocks(
                        (old(repo).index@, old(repo).objects@),
                        file_path@,
                        raw_data@,
                        gitignore@,
                        old(repo).name@,
                    ) && final(repo).index@ == index_with(old(repo).index@, file_path@, id)
                        && final(repo).objects@ == written(
                        old(repo).objects@,
                        id,
                        zlib_stream(canonical(ObjectKind::Blob, raw_data@)),
                    ),
                    Err(e) => e == GitrError::CompressionError && final(repo).index@ == old(repo).index@ && final(repo).objects@ == old(repo).objects@ && blocks(
                        (old(repo).index@, old(repo).objects@),
                        file_path@,
                        raw_data@,
                        gitignore@,
                        old(repo).name@,
                    ),
                }
            }
        }),
{
    match path_is_ignored(file_path, gitignore, repo.name.as_slice()) {
        Ok(found) => {
            if found {
                return Ok(());
            }
        },
        Err(e) => {
            return Err(e);
        },
    }
    let blob = match Blob::new(raw_data) {
        Ok(blob) => blob,
        Err(e) => {
            return Err(e);
        },
    };
    match blob.save(&mut repo.objects) {
        Ok(_) => {},
        Err(e) => {
            return Err(e);
        },
    }
    let hash = blob.get_hash();
    add_to_index(file_path, hash.as_slice(), repo)
}

/// Whether a file found in the working directory is left out when all
/// files are staged: those that have `gitr` in their path are.
pub fn skipped_by_add(file: &[u8]) -> (r: bool)
    ensures
        r == contains_text(file@, ascii("gitr"@)),
{
    proof {
        reveal_strlit("gitr");
    }
    has_text(file, bytes_of("gitr").as_slice())
}

/// The id of the blob that holds `raw_data`; where `write` is set, the
/// blob is saved too.
pub fn get_object_hash(raw_data: Vec<u8>, write: bool, store: &mut ObjectStore) -> (r: Result<
    Vec<u8>,
    GitrError,
>)
    ensures
        ({
            let id = object_id(ObjectKind::Blob, raw_data@);
            match r {
                Ok(hash) => hash@ == id && final(store)@ == if write {
                    written(old(store)@, id, zlib_stream(canonical(ObjectKind::Blob, raw_data@)))
                } else {
                    old(store)@
                },
                Err(e) => write && e == GitrError::CompressionError && final(store)@ == old(store)@ && !holds(old(store)@, id) && !compresses(
                    canonical(ObjectKind::Blob, raw_data@),
                ),
            }
        }),
{
    let blob = match Blob::new(raw_data) {
        Ok(blob) => blob,
        Err(e) => {
            return Err(e);
        },
    };
    let res = blob.get_hash();
    if write {
        match blob.save(store) {
            Ok(_) => {},
            Err(e) => {
                return Err(e);
            },
        }
    }
    Ok(res)
}

/// How many of the bytes of `s` from index `from` on are white space
/// before the first that is not.
pub open spec fn spaces_from(s: Seq<u8>, from: int) -> int
    decreases s.len() - from,
{
    if from < 0 || from >= s.len() || !is_space(s[from]) {
        0
    } else {
        1 + spaces_from(s, from + 1)
    }
}

/// The mail that a configuration names: what follows the first `=` of its
/// second line, up to the next `=`, without the white space at its start.
/// `FileReadError` where there is no second line, or no `=` in it.
pub open spec fn config_mail(config_data: Seq<u8>) -> Result<Seq<u8>, GitrError> {
    let lines = split_on(config_data, 10);
    if lines.len() < 2 {
        Err(GitrError::FileReadError)
    } else {
        let fields = split_on(lines[1], 61);
        if fields.len() < 2 {
            Err(GitrError::FileReadError)
        } else {
            Ok(fields[1].subrange(spaces_from(fields[1], 0), fields[1].len() as int))
        }
    }
}

/// Reads the mail of the user from the text of the configuration.
pub fn get_user_mail_from_config(config_data: &[u8]) -> (r: Result<Vec<u8>, GitrError>)
    ensures
        match r {
            Ok(mail) => config_mail(config_data@) == Ok::<Seq<u8>, GitrError>(mail@),
            Err(e) => config_mail(config_data@) == Err::<Seq<u8>, GitrError>(e),
        },
{
    let lines = split(config_data, 10u8);
    if lines.len() < 2 {
        return Err(GitrError::FileReadError);
    }
    assert(seqs(lines@)[1] == lines@[1]@);
    let fields = split(lines[1].as_slice(), 61u8);
    if fields.len() < 2 {
        return Err(GitrError::FileReadError);
    }
    assert(seqs(fields@)[1] == fields@[1]@);
    let field = fields[1].as_slice();
    let mut i: usize = 0;
    while i < field.len() && (field[i] == 32 || (9 <= field[i] && field[i] <= 13))
        invariant
            i <= field@.len(),
            spaces_from(field@, 0) == i + spaces_from(field@, i as int),
        decreases field@.len() - i,
    {
        i = i + 1;
    }
    Ok(copy_range(field, i, field.len()))
}

/// The first `n` of `lines` as a list of files: each line as the status
/// shows a path, and a line feed.
pub open spec fn cached_text(lines: Seq<Seq<u8>>, n: int) -> Seq<u8>
    decreases n,
{
    if n <= 0 {
        Seq::empty()
    } else {
        cached_text(lines, n - 1) + shown_name(lines[n - 1]) + seq![10u8]
    }
}

/// The files of the index, one to a line, each without what stands before
/// its first slash.
pub fn get_ls_files_cached(repo: &Repository) -> (r: Result<Vec<u8>, GitrError>)
    ensures
        r matches Ok(text) && text@ == cached_text(
            lines_of(repo.index@),
            lines_of(repo.index@).len() as int,
        ),
{
    let mut string_res: Vec<u8> = Vec::new();
    let index = lines(repo.index.as_slice());
    let ghost all = seqs(index@);
    let mut i: usize = 0;
    while i < index.len()
        invariant
            i <= index@.len(),
            all == seqs(index@),
            string_res@ == cached_text(all, i as int),
        decreases index@.len() - i,
    {
        let ghost before = string_res@;
        assert(all[i as int] == index@[i as int]@);
        let line = index[i].as_slice();
        let at = find_byte(line, 47u8, 0);
        if at < line.len() {
            push_range(&mut string_res, line, at + 1, line.len());
        } else {
            push_all(&mut string_res, line);
        }
        string_res.push(10u8);
        assert(string_res@ =~= before + shown_name(all[i as int]) + seq![10u8]);
        i = i + 1;
    }
    Ok(string_res)
}

/// The branch that a checkout goes to, by its arguments: the one named by
/// the first of them; or, where they are `-b` and a name, a new branch of
/// that name, made at the current commit. It fails, changing nothing, with
/// `InvalidArgumentError` where there is no argument, as making the branch
/// fails, and with `BranchNonExistsError` where there is no branch of the
/// name.
pub fn get_branch_to_checkout(args_received: &Vec<Vec<u8>>, repo: &mut Repository) -> (r: Result<
    Vec<u8>,
    GitrError,
>)
    ensures
        final(repo).head@ == old(repo).head@,
        final(repo).objects@ == old(repo).objects@,
        final(repo).index@ == old(repo).index@,
        final(repo).name@ == old(repo).name@,
        ({
            let args = seqs(args_received@);
            let refs = repo_refs(*old(repo));
            if args.len() == 0 {
                r == Err::<Vec<u8>, GitrError>(GitrError::InvalidArgumentError) && final(repo).refs@ == old(repo).refs@
            } else if args.len() == 2 && args[0] == ascii("-b"@) {
                match r {
                    Ok(branch) => branch@ == args[1] && ref_current(refs, branch_ref(args[1]))
                        is None && old(repo).head@ != ascii("None"@) && match ref_current(
                        refs,
                        old(repo).head@,
                    ) {
                        Some(current) => repo_refs(*final(repo)) == ref_put(
                            refs,
                            branch_ref(args[1]),
                            current,
                        ),
                        None => false,
                    },
                    Err(e) => final(repo).refs@ == old(repo).refs@ && if ref_current(
                        refs,
                        branch_ref(args[1]),
                    ) is Some {
                        e == GitrError::BranchAlreadyExistsError
                    } else {
                        head_fails(*old(repo), e)
                    },
                }
            } else {
                final(repo).refs@ == old(repo).refs@ && match r {
                    Ok(branch) => branch@ == args[0] && ref_current(refs, branch_ref(args[0]))
                        is Some,
                    Err(e) => e == GitrError::BranchNonExistsError && ref_current(
                        refs,
                        branch_ref(args[0]),
                    ) is None,
                }
            }
        }),
{
    if args_received.len() == 0 {
        return Err(GitrError::InvalidArgumentError);
    }
    proof {
        reveal_strlit("-b");
        assert(seqs(args_received@)[0] == args_received@[0]@);
    }
    if args_received.len() == 2 && bytes_eq(
        args_received[0].as_slice(),
        bytes_of("-b").as_slice(),
    ) {
        assert(seqs(args_received@)[1] == args_received@[1]@);
        let branch_to_checkout = args_received[1].clone();
        match branch_newbranch_flag(branch_to_checkout.as_slice(), repo) {
            Ok(_) => {},
            Err(e) => {
                return Err(e);
            },
        }
        return Ok(branch_to_checkout);
    }
    let branch_to_checkout = args_received[0].clone();
    if !branch_exists(branch_to_checkout.as_slice(), repo) {
        return Err(GitrError::BranchNonExistsError);
    }
    Ok(branch_to_checkout)
}

/// Checks that the files of the commit `commit_hash` can be read.
pub fn get_blobs_from_commit(commit_hash: &[u8], repo: &Repository) -> (r: Result<(), GitrError>)
    ensures
        match r {
            Ok(_) => commit_files(*repo, commit_hash@) is Ok,
            Err(e) => commit_files(*repo, commit_hash@) == Err::<
                Seq<(Seq<u8>, Seq<u8>)>,
                GitrError,
            >(e),
        },
{
    match get_commit_hashmap(commit_hash, repo) {
        Ok(_) => Ok(()),
        Err(e) => Err(e),
    }
}

/// Index and store after the file at `path` that holds `data` was staged:
/// as they were where the file is ignored, and else the index with the
/// line of the file and the store with its blob.
pub open spec fn staged_one(
    state: (Seq<u8>, Seq<(Seq<u8>, Seq<u8>)>),
    path: Seq<u8>,
    data: Seq<u8>,
    gitignore: Seq<u8>,
    name: Seq<u8>,
) -> (Seq<u8>, Seq<(Seq<u8>, Seq<u8>)>) {
    if ignored(seq![path], gitignore, name).len() > 0 {
        state
    } else {
        (
            index_with(state.0, path, object_id(ObjectKind::Blob, data)),
            written(
                state.1,
                object_id(ObjectKind::Blob, data),
                zlib_stream(canonical(ObjectKind::Blob, data)),
            ),
        )
    }
}

/// Index and store after the first `n` of `files`, pairs of path and
/// content, were staged one after the other.
pub open spec fn staged_many(
    state: (Seq<u8>, Seq<(Seq<u8>, Seq<u8>)>),
    files: Seq<(Seq<u8>, Seq<u8>)>,
    gitignore: Seq<u8>,
    name: Seq<u8>,
    n: int,
) -> (Seq<u8>, Seq<(Seq<u8>, Seq<u8>)>)
    decreases n,
{
    if n <= 0 {
        state
    } else {
        staged_one(
            staged_many(state, files, gitignore, name, n - 1),
            files[n - 1].0,
            files[n - 1].1,
            gitignore,
            name,
        )
    }
}

/// Whether staging the first `n` of `files` one after the other fails at
/// one of them.
pub open spec fn stage_fails(
    state: (Seq<u8>, Seq<(Seq<u8>, Seq<u8>)>),
    files: Seq<(Seq<u8>, Seq<u8>)>,
    gitignore: Seq<u8>,
    name: Seq<u8>,
    n: int,
) -> bool
    decreases n,
{
    if n <= 0 {
        false
    } else {
        stage_fails(state, files, gitignore, name, n - 1) || blocks(
            staged_many(state, files, gitignore, name, n - 1),
            files[n - 1].0,
            files[n - 1].1,
            gitignore,
            name,
        )
    }
}

/// Staging that fails at some file fails for more files too.
proof fn lemma_stage_fails(
    state: (Seq<u8>, Seq<(Seq<u8>, Seq<u8>)>),
    files: Seq<(Seq<u8>, Seq<u8>)>,
    gitignore: Seq<u8>,
    name: Seq<u8>,
    n: int,
    m: int,
)
    requires
        0 <= n <= m,
        stage_fails(state, files, gitignore, name, n),
    ensures
        stage_fails(state, files, gitignore, name, m),
    decreases m - n,
{
    if n < m {
        lemma_stage_fails(state, files, gitignore, name, n, m - 1);
    }
}

/// Stages the files `files`, pairs of path and content, one after the
/// other. It stops with `CompressionError` at the first file whose blob
/// has to be stored and cannot be compressed; the files before that one
/// stay staged.
pub fn stage_all(files: &Vec<(Vec<u8>, Vec<u8>)>, gitignore: &[u8], repo: &mut Repository) -> (r:
    Result<(), GitrError>)
    ensures
        final(repo).name == old(repo).name,
        final(repo).refs == old(repo).refs,
        final(repo).head == old(repo).head,
        final(repo).remote == old(repo).remote,
        match r {
            Ok(_) => (final(repo).index@, final(repo).objects@) == staged_many(
                (old(repo).index@, old(repo).objects@),
                files_view(files@),
                gitignore@,
                old(repo).name@,
                files@.len() as int,
            ) && !stage_fails(
                (old(repo).index@, old(repo).objects@),
                files_view(files@),
                gitignore@,
                old(repo).name@,
                files@.len() as int,
            ),
            Err(e) => e == GitrError::CompressionError && stage_fails(
                (old(repo).index@, old(repo).objects@),
                files_view(files@),
                gitignore@,
                old(repo).name@,
                files@.len() as int,
            ),
        },
{
    let ghost all = files_view(files@);
    let ghost start = (repo.index@, repo.objects@);
    let mut i: usize = 0;
    while i < files.len()
        invariant
            i <= files@.len(),
            all == files_view(files@),
            repo.name == old(repo).name,
            repo.refs == old(repo).refs,
            repo.head == old(repo).head,
            repo.remote == old(repo).remote,
            start == (old(repo).index@, old(repo).objects@),
            (repo.index@, repo.objects@) == staged_many(
                start,
                all,
                gitignore@,
                old(repo).name@,
                i as int,
            ),
            !stage_fails(start, all, gitignore@, old(repo).name@, i as int),
        decreases files@.len() - i,
    {
        assert(all[i as int] == (files@[i as int].0@, files@[i as int].1@));
        match save_and_add_blob_to_index(
            files[i].0.as_slice(),
            files[i].1.clone(),
            gitignore,
            repo,
        ) {
            Ok(_) => {
                assert(!blocks(
                    staged_many(start, all, gitignore@, old(repo).name@, i as int),
                    all[i as int].0,
                    all[i as int].1,
                    gitignore@,
                    old(repo).name@,
                ));
            },
            Err(e) => {
                proof {
                    assert(stage_fails(start, all, gitignore@, old(repo).name@, i + 1));
                    lemma_stage_fails(
                        start,
                        all,
                        gitignore@,
                        old(repo).name@,
                        i + 1,
                        files@.len() as int,
                    );
                }
                return Err(e);
            },
        }
        i = i + 1;
    }
    Ok(())
}

/// Those of the first `n` of `files` that `keep` holds of, in order.
pub open spec fn selected(
    files: Seq<(Seq<u8>, Seq<u8>)>,
    keep: spec_fn((Seq<u8>, Seq<u8>)) -> bool,
    n: int,
) -> Seq<(Seq<u8>, Seq<u8>)>
    decreases n,
{
    if n <= 0 {
        Seq::empty()
    } else if keep(files[n - 1]) {
        selected(files, keep, n - 1).push(files[n - 1])
    } else {
        selected(files, keep, n - 1)
    }
}

/// Holds of a file that is staged when all files are.
pub open spec fn staged_by_all() -> spec_fn((Seq<u8>, Seq<u8>)) -> bool {
    |file: (Seq<u8>, Seq<u8>)| !contains_text(file.0, ascii("gitr"@))
}

/// What staging by the argument `file_path` stages, given the files of the
/// working directory with their contents: for `.` all files but those with
/// `gitr` in their path; else the file of that name in the repository
/// `name`, and `FileReadError` where there is none.
pub open spec fn files_to_add(file_path: Seq<u8>, work: Seq<(Seq<u8>, Seq<u8>)>, name: Seq<u8>) -> Result<
    Seq<(Seq<u8>, Seq<u8>)>,
    GitrError,
> {
    if file_path == ascii("."@) {
        Ok(selected(work, staged_by_all(), work.len() as int))
    } else {
        match lookup(work, name + seq![47u8] + file_path) {
            Some(data) => Ok(seq![(name + seq![47u8] + file_path, data)]),
            None => Err(GitrError::FileReadError),
        }
    }
}

/// Stages what the argument `file_path` names: all files of the working
/// directory `work` for `.`, and else the one file. It fails, changing
/// nothing, with `FileReadError` where the one file is not there, and as
/// `stage_all` fails.
pub fn add_files_command(
    file_path: &[u8],
    work: &Vec<(Vec<u8>, Vec<u8>)>,
    gitignore: &[u8],
    repo: &mut Repository,
) -> (r: Result<(), GitrError>)
    ensures
        final(repo).name == old(repo).name,
        final(repo).refs == old(repo).refs,
        final(repo).head == old(repo).head,
        final(repo).remote == old(repo).remote,
        match files_to_add(file_path@, files_view(work@), old(repo).name@) {
            Err(e) => r == Err::<(), GitrError>(e) && final(repo).index@ == old(repo).index@
                && final(repo).objects@ == old(repo).objects@,
            Ok(files) => match r {
                Ok(_) => (final(repo).index@, final(repo).objects@) == staged_many(
                    (old(repo).index@, old(repo).objects@),
                    files,
                    gitignore@,
                    old(repo).name@,
                    files.len() as int,
                ),
                Err(e) => e == GitrError::CompressionError && stage_fails(
                    (old(repo).index@, old(repo).objects@),
                    files,
                    gitignore@,
                    old(repo).name@,
                    files.len() as int,
                ),
            },
        },
{
    proof {
        reveal_strlit(".");
    }
    let ghost w = files_view(work@);
    let mut files: Vec<(Vec<u8>, Vec<u8>)> = Vec::new();
    if bytes_eq(file_path, bytes_of(".").as_slice()) {
        let mut i: usize = 0;
        assert(files_view(files@) =~= selected(w, staged_by_all(), 0));
        while i < work.len()
            invariant
                i <= work@.len(),
                w == files_view(work@),
                files_view(files@) == selected(w, staged_by_all(), i as int),
            decreases work@.len() - i,
        {
            let ghost before = files_view(files@);
            assert(w[i as int] == (work@[i as int].0@, work@[i as int].1@));
            if !skipped_by_add(work[i].0.as_slice()) {
                files.push((work[i].0.clone(), work[i].1.clone()));
                assert(files_view(files@) =~= before.push(w[i as int]));
            }
            i = i + 1;
        }
    } else {
        let mut full = repo.name.clone();
        full.push(47u8);
        push_all(&mut full, file_path);
        assert(full@ =~= repo.name@ + seq![47u8] + file_path@);
        match file_id(work, full.as_slice()) {
            Some(data) => {
                let ghost pair = (full@, data@);
                files.push((full, data));
                assert(files_view(files@) =~= seq![pair]);
            },
            None => {
                return Err(GitrError::FileReadError);
            },
        }
    }
    stage_all(&files, gitignore, repo)
}

/// The files among the first `n` of `entries` that `work` has, each with
/// what `work` has for it.
pub open spec fn present(
    entries: Seq<(Seq<u8>, Seq<u8>)>,
    work: Seq<(Seq<u8>, Seq<u8>)>,
    n: int,
) -> Seq<(Seq<u8>, Seq<u8>)>
    decreases n,
{
    if n <= 0 {
        Seq::empty()
    } else {
        match lookup(work, entries[n - 1].0) {
            Some(data) => present(entries, work, n - 1).push((entries[n - 1].0, data)),
            None => present(entries, work, n - 1),
        }
    }
}

/// Brings the index up to date with the working directory `work`, given
/// with the content of each file: files that are gone leave the index, and
/// the others are staged anew with what they hold now. Without an index
/// nothing is done. It fails with `FileReadError`, changing nothing, where
/// the index cannot be read, and as `stage_all` fails.
pub fn update_index_before_add(work: &Vec<(Vec<u8>, Vec<u8>)>, gitignore: &[u8], repo: &mut Repository) -> (r:
    Result<(), GitrError>)
    ensures
        final(repo).name == old(repo).name,
        final(repo).refs == old(repo).refs,
        final(repo).head == old(repo).head,
        final(repo).remote == old(repo).remote,
        if old(repo).index@.len() == 0 {
            r is Ok && final(repo).index@ == old(repo).index@ && final(repo).objects@ == old(repo).objects@
        } else {
            match staged_files(old(repo).index@) {
                None => r == Err::<(), GitrError>(GitrError::FileReadError) && final(repo).index@
                    == old(repo).index@ && final(repo).objects@ == old(repo).objects@,
                Some(entries) => match r {
                    Ok(_) => {
                        let files = present(entries, files_view(work@), entries.len() as int);
                        (final(repo).index@, final(repo).objects@) == staged_many(
                            (Seq::empty(), old(repo).objects@),
                            files,
                            gitignore@,
                            old(repo).name@,
                            files.len() as int,
                        )
                    },
                    Err(e) => {
                        let files = present(entries, files_view(work@), entries.len() as int);
                        e == GitrError::CompressionError && stage_fails(
                            (Seq::empty(), old(repo).objects@),
                            files,
                            gitignore@,
                            old(repo).name@,
                            files.len() as int,
                        )
                    },
                },
            }
        },
{
    if repo.index.len() == 0 {
        return Ok(());
    }
    let (entries, _hayindex) = match get_index_hashmap(repo) {
        Ok(found) => found,
        Err(e) => {
            return Err(e);
        },
    };
    let ghost ev = files_view(entries@);
    let ghost w = files_view(work@);
    let mut files: Vec<(Vec<u8>, Vec<u8>)> = Vec::new();
    let mut i: usize = 0;
    assert(files_view(files@) =~= present(ev, w, 0));
    while i < entries.len()
        invariant
            i <= entries@.len(),
            ev == files_view(entries@),
            w == files_view(work@),
            files_view(files@) == present(ev, w, i as int),
        decreases entries@.len() - i,
    {
        let ghost before = files_view(files@);
        assert(ev[i as int] == (entries@[i as int].0@, entries@[i as int].1@));
        match file_id(work, entries[i].0.as_slice()) {
            Some(data) => {
                let ghost pair = (ev[i as int].0, data@);
                files.push((entries[i].0.clone(), data));
                assert(files_view(files@) =~= before.push(pair));
            },
            None => {},
        }
        i = i + 1;
    }
    repo.index = Vec::new();
    assert(repo.index@ =~= Seq::<u8>::empty());
    stage_all(&files, gitignore, repo)
}

/// The first `n` of `files`, pairs of path and content, each with the id
/// of the blob that holds its content in place of the content.
pub open spec fn with_ids(files: Seq<(Seq<u8>, Seq<u8>)>, n: int) -> Seq<(Seq<u8>, Seq<u8>)>
    decreases n,
{
    if n <= 0 {
        Seq::empty()
    } else {
        with_ids(files, n - 1).push((files[n - 1].0, object_id(ObjectKind::Blob, files[n - 1].1)))
    }
}

/// The files of the working directory, given with their contents, each
/// with the id of the blob that would hold it.
pub fn get_working_dir_hashmap(files: &Vec<(Vec<u8>, Vec<u8>)>) -> (r: Result<
    Vec<(Vec<u8>, Vec<u8>)>,
    GitrError,
>)
    ensures
        r matches Ok(map) && files_view(map@) == with_ids(files_view(files@), files@.len() as int),
{
    let ghost all = files_view(files@);
    let mut map: Vec<(Vec<u8>, Vec<u8>)> = Vec::new();
    let mut i: usize = 0;
    assert(files_view(map@) =~= with_ids(all, 0));
    while i < files.len()
        invariant
            i <= files@.len(),
            all == files_view(files@),
            files_view(map@) == with_ids(all, i as int),
        decreases files@.len() - i,
    {
        let ghost before = files_view(map@);
        assert(all[i as int] == (files@[i as int].0@, files@[i as int].1@));
        let hash = hash_object(ObjectKind::Blob, files[i].1.as_slice());
        let ghost pair = (all[i as int].0, hash@);
        map.push((files[i].0.clone(), hash));
        assert(files_view(map@) =~= before.push(pair));
        i = i + 1;
    }
    Ok(map)
}

/// Puts the file at `path`, whose content is the blob `hash`, in the
/// index, and gives what the file has to hold. It fails, changing nothing,
/// as reading the blob fails.
pub fn create_blob(path: &[u8], hash: &[u8], repo: &mut Repository) -> (r: Result<Vec<u8>, GitrError>)
    ensures
        final(repo).name == old(repo).name,
        final(repo).objects == old(repo).objects,
        final(repo).refs == old(repo).refs,
        final(repo).head == old(repo).head,
        final(repo).remote == old(repo).remote,
        match blob_data(old(repo).objects@, hash@) {
            Ok(data) => r matches Ok(out) && out@ == data && final(repo).index@ == index_with(
                old(repo).index@,
                path@,
                hash@,
            ),
            Err(e) => r == Err::<Vec<u8>, GitrError>(e) && final(repo).index@ == old(repo).index@,
        },
{
    let data = match read_file_data_from_blob_hash(hash, &repo.objects) {
        Ok(data) => data,
        Err(e) => {
            return Err(e);
        },
    };
    match add_to_index(path, hash, repo) {
        Ok(_) => Ok(data),
        Err(e) => Err(e),
    }
}

} // verus!
