use crate::commands::adding::get_branch_to_checkout;
use crate::commands::command_utils::{branch_ref, full_branch_name};
use crate::commands::merge::{add_new_files_from_merge, brought_in, staged_all, to_write};
use crate::commands::snapshot::{commit_files, get_commit_hashmap};
use crate::commands::status::files_view;
use crate::commands::tags::commit_existing;
use crate::file_manager::{get_commit, repo_refs, update_head, Repository};
use crate::server::server_utils::{ref_current, ref_put};
use crate::gitr_errors::GitrError;
use crate::text::{ascii, bytes_eq, bytes_of, seqs, split_on};
use vstd::prelude::*;

verus! {

/// Whether what is named `name` in the directory of a repository stays
/// when the working directory is cleared: the directory of the repository's
/// own data, and the ignore file.
pub fn kept_on_delete(name: &[u8]) -> (r: bool)
    ensures
        r == (name@ == ascii("gitr"@) || name@ == ascii(".git"@) || name@ == ascii(
            "gitrignore"@,
        )),
{
    proof {
        reveal_strlit("gitr");
        reveal_strlit(".git");
        reveal_strlit("gitrignore");
    }
    bytes_eq(name, bytes_of("gitr").as_slice()) || bytes_eq(name, bytes_of(".git").as_slice())
        || bytes_eq(name, bytes_of("gitrignore").as_slice())
}

/// Makes the index that of the commit `commit`, and gives the files that
/// the working directory then has to hold, each with its path and content,
/// in the order of the trees of the commit. It fails, changing nothing, as
/// reading the files of the commit fails, and as reading a blob fails.
pub fn update_working_directory(commit: &[u8], repo: &mut Repository) -> (r: Result<
    Vec<(Vec<u8>, Vec<u8>)>,
    GitrError,
>)
    ensures
        final(repo).name == old(repo).name,
        final(repo).objects == old(repo).objects,
        final(repo).refs == old(repo).refs,
        final(repo).head == old(repo).head,
        final(repo).remote == old(repo).remote,
        match commit_files(*old(repo), commit@) {
            Err(e) => r == Err::<Vec<(Vec<u8>, Vec<u8>)>, GitrError>(e) && final(repo).index@
                == old(repo).index@,
            Ok(files) => match brought_in(
                old(repo).objects@,
                Seq::empty(),
                files,
                files.len() as int,
            ) {
                Err(e) => r == Err::<Vec<(Vec<u8>, Vec<u8>)>, GitrError>(e) && final(repo).index@
                    == old(repo).index@,
                Ok(brought) => r matches Ok(out) && to_write(out@, brought) && final(repo).index@
                    == staged_all(Seq::empty(), brought, brought.len() as int),
            },
        },
{
    let files = match get_commit_hashmap(commit, repo) {
        Ok(files) => files,
        Err(e) => {
            return Err(e);
        },
    };
    let nothing: Vec<(Vec<u8>, Vec<u8>)> = Vec::new();
    assert(files_view(nothing@) =~= Seq::<(Seq<u8>, Seq<u8>)>::empty());
    let mut kept: Vec<u8> = Vec::new();
    std::mem::swap(&mut kept, &mut repo.index);
    assert(repo.index@ =~= Seq::<u8>::empty());
    match add_new_files_from_merge(&nothing, &files, repo) {
        Ok(out) => Ok(out),
        Err(e) => {
            repo.index = kept;
            Err(e)
        },
    }
}

/// The branch that the arguments of a checkout name: the first of one, the
/// second of two.
pub open spec fn checkout_target(flags: Seq<Seq<u8>>) -> Seq<u8> {
    if flags.len() == 2 {
        flags[1]
    } else {
        flags[0]
    }
}

/// Whether the arguments of a checkout are of the right form: a branch, or
/// `-b` and a branch.
pub open spec fn checkout_flags_ok(flags: Seq<Seq<u8>>) -> bool {
    flags.len() == 1 || (flags.len() == 2 && flags[0] == ascii("-b"@))
}

/// The commit that a checkout by `flags` goes over to, and the references
/// after it: `InvalidArgumentError` where the arguments are of no right
/// form; `NoHead` where the name that `HEAD` holds has fewer than three
/// parts between slashes; `NoCommitExisting` where `HEAD` resolves to no commit; for `-b`
/// and a name, `BranchAlreadyExistsError` where there is a branch of the
/// name, and else the current commit, with the new branch pointing at it;
/// for a name alone, `BranchNonExistsError` where there is no such branch,
/// and else its commit.
pub open spec fn checkout_commit(repo: Repository, flags: Seq<Seq<u8>>) -> Result<
    (Seq<u8>, Seq<(Seq<u8>, Seq<u8>)>),
    GitrError,
> {
    let refs = repo_refs(repo);
    let target = branch_ref(checkout_target(flags));
    if !checkout_flags_ok(flags) {
        Err(GitrError::InvalidArgumentError)
    } else if split_on(repo.head@, 47).len() < 3 {
        Err(GitrError::NoHead)
    } else {
        match ref_current(refs, repo.head@) {
            None => Err(GitrError::NoCommitExisting),
            Some(current) => if repo.head@ == ascii("None"@) {
                Err(GitrError::NoHead)
            } else if flags.len() == 2 {
                if ref_current(refs, target) is Some {
                    Err(GitrError::BranchAlreadyExistsError)
                } else {
                    Ok((current, ref_put(refs, target, current)))
                }
            } else {
                match ref_current(refs, target) {
                    None => Err(GitrError::BranchNonExistsError),
                    Some(commit) => Ok((commit, refs)),
                }
            },
        }
    }
}

/// Goes over to a branch: the one that `flags` names, made anew where they
/// start with `-b`. `HEAD` comes to point at it, the index becomes that of
/// its commit, and the result gives the files that the working directory
/// has to hold. It fails as `checkout_commit` tells, and then as reading
/// the files of the commit and their blobs fails; on failure `HEAD` and
/// the index stay as they were.
pub fn checkout(flags: &Vec<Vec<u8>>, repo: &mut Repository) -> (r: Result<
    Vec<(Vec<u8>, Vec<u8>)>,
    GitrError,
>)
    ensures
        final(repo).objects@ == old(repo).objects@,
        !checkout_flags_ok(seqs(flags@)) ==> r == Err::<Vec<(Vec<u8>, Vec<u8>)>, GitrError>(
            GitrError::InvalidArgumentError,
        ) && final(repo).refs@ == old(repo).refs@,
        match r {
            Ok(_) => checkout_flags_ok(seqs(flags@)) && final(repo).head@ == branch_ref(
                checkout_target(seqs(flags@)),
            ),
            Err(_) => final(repo).head@ == old(repo).head@ && final(repo).index@ == old(repo).index@,
        },
        match checkout_commit(*old(repo), seqs(flags@)) {
            Err(failed) => r == Err::<Vec<(Vec<u8>, Vec<u8>)>, GitrError>(failed) && final(repo).refs@ == old(repo).refs@,
            Ok((commit, refs)) => repo_refs(*final(repo)) == refs && match commit_files(
                *old(repo),
                commit,
            ) {
                Err(failed) => r == Err::<Vec<(Vec<u8>, Vec<u8>)>, GitrError>(failed),
                Ok(files) => match brought_in(
                    old(repo).objects@,
                    Seq::empty(),
                    files,
                    files.len() as int,
                ) {
                    Err(failed) => r == Err::<Vec<(Vec<u8>, Vec<u8>)>, GitrError>(failed),
                    Ok(brought) => r matches Ok(out) && to_write(out@, brought) && final(repo).index@ == staged_all(Seq::empty(), brought, brought.len() as int),
                },
            },
        },
{
    let current_commit = match checkout_branch(flags, repo) {
        Ok(commit) => commit,
        Err(e) => {
            return Err(e);
        },
    };
    let ghost target = branch_ref(checkout_target(seqs(flags@)));
    let files = match update_working_directory(current_commit.as_slice(), repo) {
        Ok(files) => files,
        Err(e) => {
            return Err(e);
        },
    };
    let path_head = full_branch_name(if flags.len() == 2 {
        flags[1].as_slice()
    } else {
        flags[0].as_slice()
    });
    proof {
        if flags@.len() == 2 {
            assert(seqs(flags@)[1] == flags@[1]@);
        } else {
            assert(seqs(flags@)[0] == flags@[0]@);
        }
    }
    match update_head(path_head.as_slice(), repo) {
        Ok(_) => Ok(files),
        Err(e) => Err(e),
    }
}

/// Finds the commit that a checkout goes over to, making the branch for
/// `-b`.
fn checkout_branch(flags: &Vec<Vec<u8>>, repo: &mut Repository) -> (r: Result<Vec<u8>, GitrError>)
    ensures
        final(repo).objects@ == old(repo).objects@,
        final(repo).head@ == old(repo).head@,
        final(repo).index@ == old(repo).index@,
        final(repo).name@ == old(repo).name@,
        match checkout_commit(*old(repo), seqs(flags@)) {
            Err(failed) => r == Err::<Vec<u8>, GitrError>(failed) && final(repo).refs@ == old(repo).refs@,
            Ok((commit, refs)) => r matches Ok(found) && found@ == commit && repo_refs(
                *final(repo),
            ) == refs && checkout_flags_ok(seqs(flags@)),
        },
{
    proof {
        reveal_strlit("-b");
        reveal_strlit("None");
    }
    if flags.len() == 0 || flags.len() > 2 {
        return Err(GitrError::InvalidArgumentError);
    }
    assert(seqs(flags@)[0] == flags@[0]@);
    if flags.len() == 2 {
        assert(seqs(flags@)[1] == flags@[1]@);
        if !bytes_eq(flags[0].as_slice(), bytes_of("-b").as_slice()) {
            return Err(GitrError::InvalidArgumentError);
        }
    }
    match commit_existing(repo) {
        Ok(_) => {},
        Err(e) => {
            return Err(e);
        },
    }
    if bytes_eq(repo.head.as_slice(), bytes_of("None").as_slice()) {
        return Err(GitrError::NoHead);
    }
    let ghost refs = repo_refs(*repo);
    let ghost target = branch_ref(checkout_target(seqs(flags@)));
    let branch_to_checkout = match get_branch_to_checkout(flags, repo) {
        Ok(branch) => branch,
        Err(e) => {
            return Err(e);
        },
    };
    proof {
        if flags@.len() == 2 {
            let current = ref_current(refs, old(repo).head@).unwrap();
            crate::server::server_utils::lemma_current_after_put(refs, target, current);
        }
    }
    match get_commit(branch_to_checkout.as_slice(), repo) {
        Ok(commit) => Ok(commit),
        Err(e) => Err(e),
    }
}

} // verus!
