use crate::commands::command_utils::{_aplicar_diffs, applied, comparar_diffs, united_of};
use crate::commands::snapshot::{commit_files, get_commit_hashmap};
use crate::commands::staging::{add_to_index, index_with};
use crate::commands::status::{file_id, files_view};
use crate::diff::{is_diff_of, lines_view, Diff};
use crate::file_manager::{lookup, stored_object, ObjectStore, Repository};
use crate::gitr_errors::GitrError;
use crate::objects::git_object::{GitObject, GitObjectView};
use crate::objects::tree::{base_name, last_component};
use crate::text::{bytes_eq, lines_of, list_contains, seqs};
use vstd::prelude::*;

verus! {

/// What the blob stored under `id` holds: `FileReadError` where something
/// else is stored there, and the store's own error where nothing can be
/// read.
pub open spec fn blob_data(store: Seq<(Seq<u8>, Seq<u8>)>, id: Seq<u8>) -> Result<
    Seq<u8>,
    GitrError,
> {
    match stored_object(store, id) {
        Err(e) => Err(e),
        Ok(GitObjectView::Blob(content)) => Ok(content),
        Ok(_) => Err(GitrError::FileReadError),
    }
}

/// Reads what the blob stored under `hash` holds.
pub fn read_file_data_from_blob_hash(hash: &[u8], store: &ObjectStore) -> (r: Result<
    Vec<u8>,
    GitrError,
>)
    ensures
        match r {
            Ok(data) => blob_data(store@, hash@) == Ok::<Seq<u8>, GitrError>(data@),
            Err(e) => blob_data(store@, hash@) == Err::<Seq<u8>, GitrError>(e),
        },
{
    match store.get(hash) {
        Err(e) => Err(e),
        Ok(GitObject::Blob(blob)) => Ok(blob.get_content()),
        Ok(_) => Err(GitrError::FileReadError),
    }
}

/// How two branches are brought together.
#[derive(Debug)]
pub enum MergePlan {
    /// The branches share no commit: nothing is done.
    Nothing,
    /// The tip of the branch merged into is in the history of the other:
    /// it moves forward to the tip of the other.
    FastForward,
    /// The branches went apart after the commit held here, which both have.
    ThreeWay(Vec<u8>),
}

/// The place of the first of the first `n` of `commits` that `others`
/// holds too; `n` where there is none.
pub open spec fn first_shared(commits: Seq<Seq<u8>>, others: Seq<Seq<u8>>, n: int) -> int
    decreases n,
{
    if n <= 0 {
        0
    } else {
        let before = first_shared(commits, others, n - 1);
        if before < n - 1 {
            before
        } else if others.contains(commits[n - 1]) {
            n - 1
        } else {
            n
        }
    }
}

/// A commit that was found stays the one found among more commits.
pub proof fn lemma_first_shared(commits: Seq<Seq<u8>>, others: Seq<Seq<u8>>, k: int, n: int)
    requires
        0 <= k < n,
        first_shared(commits, others, k + 1) == k,
    ensures
        first_shared(commits, others, n) == k,
    decreases n - k,
{
    if k + 1 < n {
        lemma_first_shared(commits, others, k, n - 1);
    }
}

/// Decides how the branch with the commits `branch_commits` is merged into
/// the one with the commits `origin_commits`, both given from the tip
/// back: by the first commit of the branch that the other has too.
pub fn merge_plan(branch_commits: &Vec<Vec<u8>>, origin_commits: &Vec<Vec<u8>>) -> (r: MergePlan)
    ensures
        ({
            let b = seqs(branch_commits@);
            let o = seqs(origin_commits@);
            let at = first_shared(b, o, b.len() as int);
            if at >= b.len() {
                r is Nothing
            } else if b[at] == o[0] {
                r is FastForward
            } else {
                r matches MergePlan::ThreeWay(base) && base@ == b[at]
            }
        }),
{
    let ghost b = seqs(branch_commits@);
    let ghost o = seqs(origin_commits@);
    let mut i: usize = 0;
    while i < branch_commits.len()
        invariant
            i <= branch_commits@.len(),
            b == seqs(branch_commits@),
            o == seqs(origin_commits@),
            first_shared(b, o, i as int) == i,
        decreases branch_commits@.len() - i,
    {
        assert(b[i as int] == branch_commits@[i as int]@);
        if list_contains(origin_commits, branch_commits[i].as_slice()) {
            proof {
                lemma_first_shared(b, o, i as int, b.len() as int);
                assert(o.len() > 0);
                assert(o[0] == origin_commits@[0]@);
            }
            if bytes_eq(branch_commits[i].as_slice(), origin_commits[0].as_slice()) {
                return MergePlan::FastForward;
            }
            return MergePlan::ThreeWay(branch_commits[i].clone());
        }
        i = i + 1;
    }
    MergePlan::Nothing
}

/// One file that two commits hold with different content, with what their
/// common ancestor holds for it: empty id and empty content where the
/// ancestor does not have the file.
#[derive(Debug)]
pub struct MergeJob {
    pub path: Vec<u8>,
    pub base_hash: Vec<u8>,
    pub base_data: Vec<u8>,
    pub origin_hash: Vec<u8>,
    pub origin_data: Vec<u8>,
    pub branch_hash: Vec<u8>,
    pub branch_data: Vec<u8>,
}

/// The mathematical value of a `MergeJob`.
pub struct MergeJobView {
    pub path: Seq<u8>,
    pub base_hash: Seq<u8>,
    pub base_data: Seq<u8>,
    pub origin_hash: Seq<u8>,
    pub origin_data: Seq<u8>,
    pub branch_hash: Seq<u8>,
    pub branch_data: Seq<u8>,
}

impl View for MergeJob {
    type V = MergeJobView;

    open spec fn view(&self) -> MergeJobView {
        MergeJobView {
            path: self.path@,
            base_hash: self.base_hash@,
            base_data: self.base_data@,
            origin_hash: self.origin_hash@,
            origin_data: self.origin_data@,
            branch_hash: self.branch_hash@,
            branch_data: self.branch_data@,
        }
    }
}

/// The values of a sequence of jobs.
pub open spec fn jobs_view(jobs: Seq<MergeJob>) -> Seq<MergeJobView> {
    Seq::new(jobs.len(), |i: int| jobs[i]@)
}

/// What the `k`-th file of `origin` adds to the jobs: nothing where
/// `branch` does not have the file or has it with the same id, and else
/// one job. It fails as reading a blob fails: that of `origin`, then that
/// of `branch`, then that of `base`.
pub open spec fn job_for(
    store: Seq<(Seq<u8>, Seq<u8>)>,
    origin: Seq<(Seq<u8>, Seq<u8>)>,
    branch: Seq<(Seq<u8>, Seq<u8>)>,
    base: Seq<(Seq<u8>, Seq<u8>)>,
    k: int,
) -> Result<Option<MergeJobView>, GitrError> {
    let path = origin[k].0;
    let origin_hash = origin[k].1;
    match blob_data(store, origin_hash) {
        Err(e) => Err(e),
        Ok(origin_data) => match lookup(branch, path) {
            None => Ok(None),
            Some(branch_hash) => match blob_data(store, branch_hash) {
                Err(e) => Err(e),
                Ok(branch_data) => if origin_hash == branch_hash {
                    Ok(None)
                } else {
                    match lookup(base, path) {
                        None => Ok(
                            Some(
                                MergeJobView {
                                    path,
                                    base_hash: Seq::empty(),
                                    base_data: Seq::empty(),
                                    origin_hash,
                                    origin_data,
                                    branch_hash,
                                    branch_data,
                                },
                            ),
                        ),
                        Some(base_hash) => match blob_data(store, base_hash) {
                            Err(e) => Err(e),
                            Ok(base_data) => Ok(
                                Some(
                                    MergeJobView {
                                        path,
                                        base_hash,
                                        base_data,
                                        origin_hash,
                                        origin_data,
                                        branch_hash,
                                        branch_data,
                                    },
                                ),
                            ),
                        },
                    }
                },
            },
        },
    }
}

/// The jobs for the first `n` files of `origin`, in order; the first
/// failure where reading a blob fails.
pub open spec fn jobs_for(
    store: Seq<(Seq<u8>, Seq<u8>)>,
    origin: Seq<(Seq<u8>, Seq<u8>)>,
    branch: Seq<(Seq<u8>, Seq<u8>)>,
    base: Seq<(Seq<u8>, Seq<u8>)>,
    n: int,
) -> Result<Seq<MergeJobView>, GitrError>
    decreases n,
{
    if n <= 0 {
        Ok(Seq::empty())
    } else {
        match jobs_for(store, origin, branch, base, n - 1) {
            Err(e) => Err(e),
            Ok(jobs) => match job_for(store, origin, branch, base, n - 1) {
                Err(e) => Err(e),
                Ok(None) => Ok(jobs),
                Ok(Some(job)) => Ok(jobs.push(job)),
            },
        }
    }
}

/// Once the jobs fail, they fail in the same way for more files.
proof fn lemma_jobs_fail(
    store: Seq<(Seq<u8>, Seq<u8>)>,
    origin: Seq<(Seq<u8>, Seq<u8>)>,
    branch: Seq<(Seq<u8>, Seq<u8>)>,
    base: Seq<(Seq<u8>, Seq<u8>)>,
    n: int,
    m: int,
)
    requires
        0 <= n <= m,
        jobs_for(store, origin, branch, base, n) is Err,
    ensures
        jobs_for(store, origin, branch, base, m) == jobs_for(store, origin, branch, base, n),
    decreases m - n,
{
    if n < m {
        lemma_jobs_fail(store, origin, branch, base, n, m - 1);
    }
}

/// Executable `job_for`.
fn make_job(
    origin: &Vec<(Vec<u8>, Vec<u8>)>,
    branch: &Vec<(Vec<u8>, Vec<u8>)>,
    base: &Vec<(Vec<u8>, Vec<u8>)>,
    store: &ObjectStore,
    k: usize,
) -> (r: Result<Option<MergeJob>, GitrError>)
    requires
        k < origin@.len(),
    ensures
        ({
            let spec = job_for(
                store@,
                files_view(origin@),
                files_view(branch@),
                files_view(base@),
                k as int,
            );
            match r {
                Ok(Some(job)) => spec == Ok::<Option<MergeJobView>, GitrError>(Some(job@)),
                Ok(None) => spec == Ok::<Option<MergeJobView>, GitrError>(None),
                Err(e) => spec == Err::<Option<MergeJobView>, GitrError>(e),
            }
        }),
{
    assert(files_view(origin@)[k as int] == (origin@[k as int].0@, origin@[k as int].1@));
    let path = origin[k].0.clone();
    let origin_hash = origin[k].1.clone();
    let origin_data = match read_file_data_from_blob_hash(origin_hash.as_slice(), store) {
        Ok(data) => data,
        Err(e) => {
            return Err(e);
        },
    };
    let branch_hash = match file_id(branch, path.as_slice()) {
        Some(hash) => hash,
        None => {
            return Ok(None);
        },
    };
    let branch_data = match read_file_data_from_blob_hash(branch_hash.as_slice(), store) {
        Ok(data) => data,
        Err(e) => {
            return Err(e);
        },
    };
    if bytes_eq(origin_hash.as_slice(), branch_hash.as_slice()) {
        return Ok(None);
    }
    let (base_hash, base_data) = match file_id(base, path.as_slice()) {
        None => (Vec::new(), Vec::new()),
        Some(hash) => {
            let data = match read_file_data_from_blob_hash(hash.as_slice(), store) {
                Ok(data) => data,
                Err(e) => {
                    return Err(e);
                },
            };
            (hash, data)
        },
    };
    let job = MergeJob {
        path,
        base_hash,
        base_data,
        origin_hash,
        origin_data,
        branch_hash,
        branch_data,
    };
    proof {
        match lookup(files_view(base@), path@) {
            None => {
                assert(job@.base_hash =~= Seq::<u8>::empty());
                assert(job@.base_data =~= Seq::<u8>::empty());
            },
            Some(_) => {},
        }
    }
    Ok(Some(job))
}

/// The files that a merge has to look at: those of `origin` that `branch`
/// holds with another id, each with the content that the two and `base`
/// have for it.
pub fn merge_jobs(
    origin: &Vec<(Vec<u8>, Vec<u8>)>,
    branch: &Vec<(Vec<u8>, Vec<u8>)>,
    base: &Vec<(Vec<u8>, Vec<u8>)>,
    store: &ObjectStore,
) -> (r: Result<Vec<MergeJob>, GitrError>)
    ensures
        ({
            let spec = jobs_for(
                store@,
                files_view(origin@),
                files_view(branch@),
                files_view(base@),
                origin@.len() as int,
            );
            match r {
                Ok(jobs) => spec == Ok::<Seq<MergeJobView>, GitrError>(jobs_view(jobs@)),
                Err(e) => spec == Err::<Seq<MergeJobView>, GitrError>(e),
            }
        }),
{
    let ghost o = files_view(origin@);
    let ghost b = files_view(branch@);
    let ghost a = files_view(base@);
    let mut jobs: Vec<MergeJob> = Vec::new();
    let mut i: usize = 0;
    assert(jobs_view(jobs@) =~= Seq::<MergeJobView>::empty());
    while i < origin.len()
        invariant
            i <= origin@.len(),
            o == files_view(origin@),
            b == files_view(branch@),
            a == files_view(base@),
            jobs_for(store@, o, b, a, i as int) == Ok::<Seq<MergeJobView>, GitrError>(
                jobs_view(jobs@),
            ),
        decreases origin@.len() - i,
    {
        let ghost before = jobs_view(jobs@);
        match make_job(origin, branch, base, store, i) {
            Err(e) => {
                proof {
                    lemma_jobs_fail(store@, o, b, a, i as int + 1, origin@.len() as int);
                }
                return Err(e);
            },
            Ok(None) => {},
            Ok(Some(job)) => {
                let ghost jv = job@;
                jobs.push(job);
                assert(jobs_view(jobs@) =~= before.push(jv));
            },
        }
        i = i + 1;
    }
    Ok(jobs)
}

/// What a merge makes of one file.
#[derive(Debug)]
pub enum MergedFile {
    /// The file stays as it is.
    Unchanged,
    /// The file gets these lines.
    Rewritten(Vec<Vec<u8>>),
    /// These lines go to a file beside it.
    Aside(Vec<Vec<u8>>),
}

/// How the three versions of a file stand to each other.
pub enum MergeCase {
    /// Only the branch that is merged in changed the file.
    TakeBranch,
    /// Only the branch that is merged into changed the file.
    KeepOrigin,
    /// Both changed it.
    Both,
}

/// How the three versions of the file of a job stand to each other.
pub open spec fn merge_case(job: MergeJobView) -> MergeCase {
    if job.base_hash == job.origin_hash {
        MergeCase::TakeBranch
    } else if job.base_hash == job.branch_hash {
        MergeCase::KeepOrigin
    } else {
        MergeCase::Both
    }
}

/// The line up to which the changes of both sides are united: one less
/// than the length of the ancestor's text, or, where that is empty, than
/// the longer of the two other texts; 0 where all are empty.
pub open spec fn merge_limit(job: MergeJobView) -> usize {
    let len = if job.base_data.len() > 0 {
        job.base_data.len()
    } else if job.branch_data.len() > job.origin_data.len() {
        job.branch_data.len()
    } else {
        job.origin_data.len()
    };
    if len > 0 {
        (len - 1) as usize
    } else {
        0
    }
}

/// Whether `lines` is the text of the branch merged into with the changes
/// that the branch merged in made to the ancestor's text.
pub open spec fn takes_branch(job: MergeJobView, lines: Seq<Seq<u8>>) -> bool {
    exists|d: Diff| #[trigger]
        is_diff_of(job.base_data, job.branch_data, d) && lines == applied(
            lines_of(job.origin_data),
            lines_view(d.lineas@),
            0,
            0,
        )
}

/// Whether `lines` and `conflict` are what uniting the changes of both
/// sides gives: the changes that each made to the ancestor's text, united
/// up to the limit and applied to the text of the branch merged into, or
/// to nothing where the ancestor's text is empty.
pub open spec fn unites_both(job: MergeJobView, lines: Seq<Seq<u8>>, conflict: bool) -> bool {
    exists|ours: Diff, theirs: Diff, united: Seq<(usize, bool, Seq<u8>)>|
        #![trigger united_of(lines_view(ours.lineas@), lines_view(theirs.lineas@), merge_limit(job), united, conflict)]
        is_diff_of(job.base_data, job.origin_data, ours) && is_diff_of(
            job.base_data,
            job.branch_data,
            theirs,
        ) && united_of(
            lines_view(ours.lineas@),
            lines_view(theirs.lineas@),
            merge_limit(job),
            united,
            conflict,
        ) && lines == applied(
            if job.base_data.len() == 0 {
                lines_of(Seq::empty())
            } else {
                lines_of(job.origin_data)
            },
            united,
            0,
            0,
        )
}

/// Whether `file` and `conflict` are what a merge makes of `job`.
pub open spec fn merged_of(job: MergeJobView, file: MergedFile, conflict: Option<bool>) -> bool {
    match merge_case(job) {
        MergeCase::TakeBranch => conflict is None && match file {
            MergedFile::Rewritten(lines) => takes_branch(job, seqs(lines@)),
            _ => false,
        },
        MergeCase::KeepOrigin => file is Unchanged && conflict is None,
        MergeCase::Both => match conflict {
            None => false,
            Some(flag) => match file {
                MergedFile::Rewritten(lines) => job.base_data.len() > 0 && unites_both(
                    job,
                    seqs(lines@),
                    flag,
                ),
                MergedFile::Aside(lines) => job.base_data.len() == 0 && unites_both(
                    job,
                    seqs(lines@),
                    flag,
                ),
                MergedFile::Unchanged => false,
            },
        },
    }
}

/// Merges one file. Where only the branch that is merged in changed it,
/// its changes are applied to the file. Where only the other branch did,
/// the file stays. Where both did, their changes are united and applied,
/// and the second result tells whether they were in conflict; the lines go
/// to a file beside the file where the ancestor did not have it.
pub fn merge_file(job: &MergeJob) -> (r: Result<(MergedFile, Option<bool>), GitrError>)
    ensures
        r matches Ok((file, conflict)) && merged_of(job@, file, conflict) && match merge_case(
            job@,
        ) {
            MergeCase::TakeBranch => file is Rewritten && conflict is None,
            MergeCase::KeepOrigin => file is Unchanged && conflict is None,
            MergeCase::Both => conflict is Some && if job@.base_data.len() == 0 {
                file is Aside
            } else {
                file is Rewritten
            },
        },
{
    if bytes_eq(job.base_hash.as_slice(), job.origin_hash.as_slice()) {
        let diff_base_branch = Diff::new(job.base_data.clone(), job.branch_data.clone());
        let ghost d = diff_base_branch;
        return match _aplicar_diffs(job.origin_data.clone(), diff_base_branch) {
            Ok(lines) => {
                assert(is_diff_of(job@.base_data, job@.branch_data, d));
                assert(takes_branch(job@, seqs(lines@)));
                Ok((MergedFile::Rewritten(lines), None))
            },
            Err(e) => Err(e),
        };
    }
    if bytes_eq(job.base_hash.as_slice(), job.branch_hash.as_slice()) {
        return Ok((MergedFile::Unchanged, None));
    }
    let mut len_archivo = job.base_data.len();
    if len_archivo == 0 {
        if job.branch_data.len() > job.origin_data.len() {
            len_archivo = job.branch_data.len();
        } else {
            len_archivo = job.origin_data.len();
        }
    }
    let limite: usize = if len_archivo > 0 {
        len_archivo - 1
    } else {
        0
    };
    assert(limite == merge_limit(job@));
    let no_base = job.base_data.len() == 0;
    let diff_base_origin = Diff::new(job.base_data.clone(), job.origin_data.clone());
    let diff_base_branch = Diff::new(job.base_data.clone(), job.branch_data.clone());
    let ghost ours = diff_base_origin;
    let ghost theirs = diff_base_branch;
    let (union_diffs, hubo_conflict) = match comparar_diffs(
        diff_base_origin,
        diff_base_branch,
        limite,
    ) {
        Ok(united) => united,
        Err(e) => {
            return Err(e);
        },
    };
    let ghost united = lines_view(union_diffs.lineas@);
    proof {
        assert(is_diff_of(job@.base_data, job@.origin_data, ours));
        assert(is_diff_of(job@.base_data, job@.branch_data, theirs));
        assert(united_of(
            lines_view(ours.lineas@),
            lines_view(theirs.lineas@),
            merge_limit(job@),
            united,
            hubo_conflict,
        ));
    }
    if no_base {
        let nothing: Vec<u8> = Vec::new();
        assert(nothing@ =~= Seq::<u8>::empty());
        match _aplicar_diffs(nothing, union_diffs) {
            Ok(lines) => {
                assert(unites_both(job@, seqs(lines@), hubo_conflict));
                Ok((MergedFile::Aside(lines), Some(hubo_conflict)))
            },
            Err(e) => Err(e),
        }
    } else {
        match _aplicar_diffs(job.origin_data.clone(), union_diffs) {
            Ok(lines) => {
                assert(unites_both(job@, seqs(lines@), hubo_conflict));
                Ok((MergedFile::Rewritten(lines), Some(hubo_conflict)))
            },
            Err(e) => Err(e),
        }
    }
}

/// What a merge made of the files of two commits.
#[derive(Debug)]
pub struct MergeResult {
    /// Whether the last file that both sides changed was left in conflict.
    pub hubo_conflict: bool,
    /// The names of the files that were left in conflict.
    pub archivos_conflict: Vec<Vec<u8>>,
    /// What was made of each file that the two commits hold with different
    /// content, with its path.
    pub files: Vec<(Vec<u8>, MergedFile)>,
}

/// The files that a merge of the commit `branch_commit` into the commit
/// `origin_commit` has to look at, `base_commit` being their common
/// ancestor. It fails as reading the files of a commit fails, that of
/// `branch_commit` first, then `origin_commit`, then `base_commit`, and
/// then as reading a blob fails.
pub open spec fn merge_inputs(
    repo: Repository,
    base_commit: Seq<u8>,
    origin_commit: Seq<u8>,
    branch_commit: Seq<u8>,
) -> Result<Seq<MergeJobView>, GitrError> {
    match commit_files(repo, branch_commit) {
        Err(e) => Err(e),
        Ok(branch) => match commit_files(repo, origin_commit) {
            Err(e) => Err(e),
            Ok(origin) => match commit_files(repo, base_commit) {
                Err(e) => Err(e),
                Ok(base) => jobs_for(repo.objects@, origin, branch, base, origin.len() as int),
            },
        },
    }
}

/// Whether `file` is what a merge makes of `job`.
pub open spec fn merged_as(job: MergeJobView, file: MergedFile) -> bool {
    exists|conflict: Option<bool>| #[trigger] merged_of(job, file, conflict)
}

/// Whether the last of the first `n` files that both sides changed was
/// left in conflict, `flags` telling of each file whether both sides
/// changed it and whether that left a conflict.
pub open spec fn last_conflict(flags: Seq<Option<bool>>, n: int) -> bool
    decreases n,
{
    if n <= 0 {
        false
    } else {
        match flags[n - 1] {
            Some(flag) => flag,
            None => last_conflict(flags, n - 1),
        }
    }
}

/// The names of those of the first `n` of `jobs` that were left in
/// conflict, in order.
pub open spec fn conflict_names(jobs: Seq<MergeJobView>, flags: Seq<Option<bool>>, n: int) -> Seq<
    Seq<u8>,
>
    decreases n,
{
    if n <= 0 {
        Seq::empty()
    } else if flags[n - 1] == Some(true) {
        conflict_names(jobs, flags, n - 1).push(base_name(jobs[n - 1].path))
    } else {
        conflict_names(jobs, flags, n - 1)
    }
}

/// Whether `res` is what merging each of `jobs` on its own gives: what
/// was made of each file, with its path; whether the last file that both
/// sides changed was left in conflict; and the names of the files left in
/// conflict.
pub open spec fn merges_of(jobs: Seq<MergeJobView>, res: MergeResult) -> bool {
    exists|flags: Seq<Option<bool>>|
        {
            &&& flags.len() == jobs.len()
            &&& res.files@.len() == jobs.len()
            &&& forall|k: int|
                0 <= k < jobs.len() ==> (#[trigger] res.files@[k]).0@ == jobs[k].path
                    && merged_of(jobs[k], res.files@[k].1, flags[k])
            &&& res.hubo_conflict == #[trigger] last_conflict(flags, jobs.len() as int)
            &&& seqs(res.archivos_conflict@) == conflict_names(jobs, flags, jobs.len() as int)
        }
}

/// Merges the files of the commit `branch_commit` into those of the commit
/// `origin_commit`, `base_commit` being their common ancestor. Each file
/// that the two hold with different content is merged on its own; the
/// result holds what was made of each, in the order of the files of
/// `origin_commit`, and the names of those on which the two sides are in
/// conflict.
pub fn three_way_merge(
    base_commit: &[u8],
    origin_commit: &[u8],
    branch_commit: &[u8],
    repo: &Repository,
) -> (r: Result<MergeResult, GitrError>)
    ensures
        match merge_inputs(*repo, base_commit@, origin_commit@, branch_commit@) {
            Err(e) => r == Err::<MergeResult, GitrError>(e),
            Ok(jobs) => r matches Ok(res) && merges_of(jobs, res) && res.files@.len()
                == jobs.len() && res.archivos_conflict@.len() <= jobs.len() && (res.hubo_conflict
                ==> jobs.len() > 0) && forall|k: int|
                0 <= k < jobs.len() ==> (#[trigger] res.files@[k]).0@ == jobs[k].path && merged_as(
                    jobs[k],
                    res.files@[k].1,
                ),
        },
{
    let branch_hashmap = match get_commit_hashmap(branch_commit, repo) {
        Ok(files) => files,
        Err(e) => {
            return Err(e);
        },
    };
    let origin_hashmap = match get_commit_hashmap(origin_commit, repo) {
        Ok(files) => files,
        Err(e) => {
            return Err(e);
        },
    };
    let base_hashmap = match get_commit_hashmap(base_commit, repo) {
        Ok(files) => files,
        Err(e) => {
            return Err(e);
        },
    };
    let jobs = match merge_jobs(&origin_hashmap, &branch_hashmap, &base_hashmap, &repo.objects) {
        Ok(jobs) => jobs,
        Err(e) => {
            return Err(e);
        },
    };
    let ghost all = jobs_view(jobs@);
    let mut hubo_conflict = false;
    let mut archivos_conflict: Vec<Vec<u8>> = Vec::new();
    let mut files: Vec<(Vec<u8>, MergedFile)> = Vec::new();
    let mut i: usize = 0;
    let ghost mut flags: Seq<Option<bool>> = Seq::empty();
    proof {
        assert(seqs(archivos_conflict@) =~= conflict_names(all, flags, 0));
    }
    while i < jobs.len()
        invariant
            i <= jobs@.len(),
            all == jobs_view(jobs@),
            files@.len() == i,
            archivos_conflict@.len() <= i,
            hubo_conflict ==> i > 0,
            flags.len() == i,
            forall|k: int|
                0 <= k < i ==> merged_of(all[k], (#[trigger] files@[k]).1, flags[k]),
            hubo_conflict == last_conflict(flags, i as int),
            seqs(archivos_conflict@) == conflict_names(all, flags, i as int),
            forall|k: int|
                0 <= k < i ==> (#[trigger] files@[k]).0@ == all[k].path && merged_as(
                    all[k],
                    files@[k].1,
                ),
        decreases jobs@.len() - i,
    {
        assert(all[i as int] == jobs@[i as int]@);
        let path = jobs[i].path.clone();
        match merge_file(&jobs[i]) {
            Ok((file, conflict)) => {
                assert(merged_of(all[i as int], file, conflict));
                let ghost had = flags;
                let ghost names = seqs(archivos_conflict@);
                let ghost done = files@;
                proof {
                    flags = flags.push(conflict);
                    lemma_flags_push(all, had, conflict, i as int);
                }
                match conflict {
                    Some(flag) => {
                        hubo_conflict = flag;
                        if flag {
                            archivos_conflict.push(last_component(path.as_slice()));
                            assert(seqs(archivos_conflict@) =~= names.push(
                                base_name(all[i as int].path),
                            ));
                        }
                    },
                    None => {},
                }
                files.push((path, file));
                proof {
                    assert forall|k: int| 0 <= k < i + 1 implies merged_of(
                        all[k],
                        (#[trigger] files@[k]).1,
                        flags[k],
                    ) by {
                        if k < i {
                            assert(files@[k] == done[k]);
                            assert(flags[k] == had[k]);
                        }
                    }
                }
            },
            Err(e) => {
                return Err(e);
            },
        }
        i = i + 1;
    }
    let res = MergeResult { hubo_conflict, archivos_conflict, files };
    proof {
        assert(res.hubo_conflict == last_conflict(flags, all.len() as int));
        assert(merges_of(all, res));
    }
    Ok(res)
}

/// What the first files give stays when a flag is added for one more.
proof fn lemma_flags_push(jobs: Seq<MergeJobView>, flags: Seq<Option<bool>>, flag: Option<bool>, n: int)
    requires
        0 <= n <= flags.len(),
    ensures
        last_conflict(flags.push(flag), n) == last_conflict(flags, n),
        conflict_names(jobs, flags.push(flag), n) == conflict_names(jobs, flags, n),
    decreases n,
{
    if n > 0 {
        lemma_flags_push(jobs, flags, flag, n - 1);
        assert(flags.push(flag)[n - 1] == flags[n - 1]);
    }
}

/// The files that a merge brings in as new: those of the first `n` of
/// `branch` whose path `origin` does not have, each with its path, its id
/// and what its blob holds; the first failure where reading a blob fails.
pub open spec fn brought_in(
    store: Seq<(Seq<u8>, Seq<u8>)>,
    origin: Seq<(Seq<u8>, Seq<u8>)>,
    branch: Seq<(Seq<u8>, Seq<u8>)>,
    n: int,
) -> Result<Seq<(Seq<u8>, Seq<u8>, Seq<u8>)>, GitrError>
    decreases n,
{
    if n <= 0 {
        Ok(Seq::empty())
    } else {
        match brought_in(store, origin, branch, n - 1) {
            Err(e) => Err(e),
            Ok(files) => if lookup(origin, branch[n - 1].0) is Some {
                Ok(files)
            } else {
                match blob_data(store, branch[n - 1].1) {
                    Err(e) => Err(e),
                    Ok(data) => Ok(files.push((branch[n - 1].0, branch[n - 1].1, data))),
                }
            },
        }
    }
}

/// Once bringing in fails, it fails in the same way for more files.
proof fn lemma_brought_fail(
    store: Seq<(Seq<u8>, Seq<u8>)>,
    origin: Seq<(Seq<u8>, Seq<u8>)>,
    branch: Seq<(Seq<u8>, Seq<u8>)>,
    n: int,
    m: int,
)
    requires
        0 <= n <= m,
        brought_in(store, origin, branch, n) is Err,
    ensures
        brought_in(store, origin, branch, m) == brought_in(store, origin, branch, n),
    decreases m - n,
{
    if n < m {
        lemma_brought_fail(store, origin, branch, n, m - 1);
    }
}

/// The text of an index after the first `n` of `files` were staged, one
/// after the other.
pub open spec fn staged_all(text: Seq<u8>, files: Seq<(Seq<u8>, Seq<u8>, Seq<u8>)>, n: int) -> Seq<u8>
    decreases n,
{
    if n <= 0 {
        text
    } else {
        index_with(staged_all(text, files, n - 1), files[n - 1].0, files[n - 1].1)
    }
}

/// The paths and contents of `files`.
pub open spec fn to_write(files: Seq<(Vec<u8>, Vec<u8>)>, brought: Seq<(Seq<u8>, Seq<u8>, Seq<u8>)>) -> bool {
    files.len() == brought.len() && forall|k: int|
        0 <= k < files.len() ==> (#[trigger] files[k]).0@ == brought[k].0 && files[k].1@
            == brought[k].2
}

/// Brings in the files that `branch_hashmap` has and `origin_hashmap` has
/// not: each is staged, and the result gives, for each, its path and what
/// is to be written there. On failure the repository stays as it was.
pub fn add_new_files_from_merge(
    origin_hashmap: &Vec<(Vec<u8>, Vec<u8>)>,
    branch_hashmap: &Vec<(Vec<u8>, Vec<u8>)>,
    repo: &mut Repository,
) -> (r: Result<Vec<(Vec<u8>, Vec<u8>)>, GitrError>)
    ensures
        final(repo).name == old(repo).name,
        final(repo).objects == old(repo).objects,
        final(repo).refs == old(repo).refs,
        final(repo).head == old(repo).head,
        final(repo).remote == old(repo).remote,
        match brought_in(
            old(repo).objects@,
            files_view(origin_hashmap@),
            files_view(branch_hashmap@),
            branch_hashmap@.len() as int,
        ) {
            Err(e) => r == Err::<Vec<(Vec<u8>, Vec<u8>)>, GitrError>(e) && final(repo).index@
                == old(repo).index@,
            Ok(brought) => r matches Ok(files) && to_write(files@, brought) && final(repo).index@
                == staged_all(old(repo).index@, brought, brought.len() as int),
        },
{
    let ghost o = files_view(origin_hashmap@);
    let ghost b = files_view(branch_hashmap@);
    let ghost store = repo.objects@;
    let ghost mut found: Seq<(Seq<u8>, Seq<u8>, Seq<u8>)> = Seq::empty();
    let mut files: Vec<(Vec<u8>, Vec<u8>)> = Vec::new();
    let mut ids: Vec<Vec<u8>> = Vec::new();
    let mut i: usize = 0;
    while i < branch_hashmap.len()
        invariant
            i <= branch_hashmap@.len(),
            *repo == *old(repo),
            store == repo.objects@,
            o == files_view(origin_hashmap@),
            b == files_view(branch_hashmap@),
            brought_in(store, o, b, i as int) == Ok::<
                Seq<(Seq<u8>, Seq<u8>, Seq<u8>)>,
                GitrError,
            >(found),
            to_write(files@, found),
            ids@.len() == found.len(),
            forall|k: int| 0 <= k < ids@.len() ==> (#[trigger] ids@[k])@ == found[k].1,
        decreases branch_hashmap@.len() - i,
    {
        assert(b[i as int] == (branch_hashmap@[i as int].0@, branch_hashmap@[i as int].1@));
        if file_id(origin_hashmap, branch_hashmap[i].0.as_slice()).is_none() {
            let data = match read_file_data_from_blob_hash(
                branch_hashmap[i].1.as_slice(),
                &repo.objects,
            ) {
                Ok(data) => data,
                Err(e) => {
                    proof {
                        lemma_brought_fail(store, o, b, i as int + 1, branch_hashmap@.len() as int);
                    }
                    return Err(e);
                },
            };
            proof {
                found = found.push((b[i as int].0, b[i as int].1, data@));
            }
            files.push((branch_hashmap[i].0.clone(), data));
            ids.push(branch_hashmap[i].1.clone());
        }
        i = i + 1;
    }
    let mut k: usize = 0;
    while k < files.len()
        invariant
            k <= files@.len(),
            to_write(files@, found),
            ids@.len() == found.len(),
            forall|j: int| 0 <= j < ids@.len() ==> (#[trigger] ids@[j])@ == found[j].1,
            repo.name == old(repo).name,
            repo.objects == old(repo).objects,
            repo.refs == old(repo).refs,
            repo.head == old(repo).head,
            repo.remote == old(repo).remote,
            repo.index@ == staged_all(old(repo).index@, found, k as int),
        decreases files@.len() - k,
    {
        match add_to_index(files[k].0.as_slice(), ids[k].as_slice(), repo) {
            Ok(_) => {},
            Err(e) => {
                return Err(e);
            },
        }
        k = k + 1;
    }
    Ok(files)
}

} // verus!
