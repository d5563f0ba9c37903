use crate::codec::{compresses, zlib_stream};
use crate::commands::merge::first_shared;
use crate::file_manager::{holds, repo_refs, written, Repository};
use crate::gitr_errors::GitrError;
use crate::objects::commit::{commit_payload, commit_wf, identity_line, unquoted, CommitView};
use crate::objects::git_object::{canonical, object_id, ObjectKind};
use crate::server::server_utils::{ref_put, write_ref};
use crate::text::{bytes_eq, list_contains, seqs};
use vstd::prelude::*;

verus! {

/// What a rebase has to do.
#[derive(Debug)]
pub enum RebasePlan {
    /// The branches share no commit, or the branch starts at the tip of
    /// the other: nothing is done.
    Nothing,
    /// The commits of the branch, from its tip back, that come after the
    /// commit `base`, which both branches have, are made anew on the tip
    /// of the other branch.
    Replay { base: Vec<u8>, commits: Vec<Vec<u8>> },
}

/// Decides what a rebase of the branch with the commits `branch_commits`
/// on the one with the commits `origin_commits` has to do, both given from
/// the tip back: by the first commit of the branch that the other has too.
pub fn rebase_plan(branch_commits: &Vec<Vec<u8>>, origin_commits: &Vec<Vec<u8>>) -> (r: RebasePlan)
    ensures
        ({
            let b = seqs(branch_commits@);
            let o = seqs(origin_commits@);
            let at = first_shared(b, o, b.len() as int);
            if at >= b.len() || b[at] == o[0] {
                r is Nothing
            } else {
                r matches RebasePlan::Replay { base, commits } && base@ == b[at] && seqs(commits@)
                    == b.subrange(0, at)
            }
        }),
{
    let ghost b = seqs(branch_commits@);
    let ghost o = seqs(origin_commits@);
    let mut to_rebase_commits: Vec<Vec<u8>> = Vec::new();
    let mut i: usize = 0;
    assert(seqs(to_rebase_commits@) =~= b.subrange(0, 0));
    while i < branch_commits.len()
        invariant
            i <= branch_commits@.len(),
            b == seqs(branch_commits@),
            o == seqs(origin_commits@),
            first_shared(b, o, i as int) == i,
            seqs(to_rebase_commits@) == b.subrange(0, i as int),
        decreases branch_commits@.len() - i,
    {
        assert(b[i as int] == branch_commits@[i as int]@);
        if list_contains(origin_commits, branch_commits[i].as_slice()) {
            proof {
                crate::commands::merge::lemma_first_shared(b, o, i as int, b.len() as int);
                assert(o.len() > 0);
                assert(o[0] == origin_commits@[0]@);
            }
            if bytes_eq(branch_commits[i].as_slice(), origin_commits[0].as_slice()) {
                return RebasePlan::Nothing;
            }
            return RebasePlan::Replay {
                base: branch_commits[i].clone(),
                commits: to_rebase_commits,
            };
        }
        let ghost before = seqs(to_rebase_commits@);
        to_rebase_commits.push(branch_commits[i].clone());
        assert(seqs(to_rebase_commits@) =~= b.subrange(0, i + 1)) by {
            assert(seqs(to_rebase_commits@) =~= before.push(b[i as int]));
        }
        i = i + 1;
    }
    RebasePlan::Nothing
}

/// Makes one commit of a rebase: a commit of the tree `main_tree` with the
/// one parent `last_commit` and the message `message`, by `cliente`. It is
/// saved, and the branch that `HEAD` points at comes to point at it.
/// Returns its id. Fails, changing nothing, with `MalformedObject` where
/// the fields make no well-formed commit, and with `CompressionError`.
pub fn create_rebase_commit(
    main_tree: Vec<u8>,
    last_commit: Vec<u8>,
    message: &[u8],
    cliente: &[u8],
    mail: &[u8],
    timestamp: usize,
    repo: &mut Repository,
) -> (r: Result<Vec<u8>, GitrError>)
    ensures
        final(repo).head@ == old(repo).head@,
        final(repo).name@ == old(repo).name@,
        final(repo).index@ == old(repo).index@,
        final(repo).remote@ == old(repo).remote@,
        ({
            let c = CommitView {
                tree: main_tree@,
                parents: seq![last_commit@],
                author: identity_line(cliente@, mail@, timestamp as nat),
                committer: identity_line(cliente@, mail@, timestamp as nat),
                message: unquoted(message@) + seq![10u8],
            };
            match r {
                Ok(id) => {
                    &&& commit_wf(c)
                    &&& id@ == object_id(ObjectKind::Commit, commit_payload(c))
                    &&& repo_refs(*final(repo)) == ref_put(
                        repo_refs(*old(repo)),
                        old(repo).head@,
                        id@,
                    )
                    &&& final(repo).objects@ == written(
                        old(repo).objects@,
                        id@,
                        zlib_stream(canonical(ObjectKind::Commit, commit_payload(c))),
                    )
                },
                Err(e) => final(repo).refs@ == old(repo).refs@ && final(repo).objects@ == old(repo).objects@ && if commit_wf(c) {
                    e == GitrError::CompressionError && !holds(
                        old(repo).objects@,
                        object_id(ObjectKind::Commit, commit_payload(c)),
                    ) && !compresses(canonical(ObjectKind::Commit, commit_payload(c)))
                } else {
                    e == GitrError::MalformedObject
                },
            }
        }),
{
    proof {
        reveal_strlit("None");
    }
    let mut parents: Vec<Vec<u8>> = Vec::new();
    parents.push(last_commit);
    assert(seqs(parents@) =~= seq![last_commit@]);
    let commit = match crate::commands::command_utils::checked_commit(
        main_tree,
        parents,
        cliente,
        message,
        mail,
        timestamp,
    ) {
        Ok(commit) => commit,
        Err(e) => {
            return Err(e);
        },
    };
    match commit.save(&mut repo.objects) {
        Ok(_) => {},
        Err(e) => {
            return Err(e);
        },
    }
    let id = commit.get_hash();
    let head = repo.head.clone();
    write_ref(&mut repo.refs, head.as_slice(), id.as_slice());
    Ok(id)
}

} // verus!
