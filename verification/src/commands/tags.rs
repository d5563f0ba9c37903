use crate::codec::{compresses, zlib_stream};
use crate::file_manager::{
    get_current_commit, holds, ref_lookup, repo_refs, short_id, written, Repository,
};
use crate::gitr_errors::GitrError;
use crate::objects::commit::identity_line;
use crate::objects::git_object::{canonical, object_id, ObjectKind};
use crate::objects::tag::{tag_payload, tag_wf, Tag, TagView};
use crate::server::server_utils::{
    ref_current, ref_put, ref_removed, refs_view, remove_ref, write_ref,
};
use crate::text::{ascii, bytes_eq, bytes_of, copy_range, has_prefix, push_all, seqs, split,
    split_on, starts_with};
use vstd::prelude::*;

verus! {

/// The full name of the tag named `tag`.
pub open spec fn tag_ref(tag: Seq<u8>) -> Seq<u8> {
    ascii("refs/tags/"@) + tag
}

/// Executable `tag_ref`.
pub fn full_tag_name(tag: &[u8]) -> (r: Vec<u8>)
    ensures
        r@ == tag_ref(tag@),
{
    proof {
        reveal_strlit("refs/tags/");
    }
    let mut full = bytes_of("refs/tags/");
    push_all(&mut full, tag);
    full
}

/// Whether `HEAD` resolves to a commit.
pub open spec fn has_current(repo: Repository) -> bool {
    repo.head@ != ascii("None"@) && ref_current(repo_refs(repo), repo.head@) is Some
}

/// Puts the tag `tag_name` on the commit that `HEAD` resolves to, and tells
/// whether it did: it does nothing where `HEAD` resolves to no commit.
/// Fails with `TagAlreadyExistsError`, changing nothing, where there is a
/// tag of that name.
pub fn create_lightweight_tag(tag_name: &[u8], repo: &mut Repository) -> (r: Result<bool, GitrError>)
    ensures
        final(repo).head@ == old(repo).head@,
        final(repo).objects@ == old(repo).objects@,
        final(repo).index@ == old(repo).index@,
        match r {
            Ok(made) => made == has_current(*old(repo)) && if made {
                ref_current(repo_refs(*old(repo)), tag_ref(tag_name@)) is None && repo_refs(
                    *final(repo),
                ) == repo_refs(*old(repo)).push(
                    (ref_current(repo_refs(*old(repo)), old(repo).head@).unwrap(), tag_ref(tag_name@)),
                )
            } else {
                final(repo).refs@ == old(repo).refs@
            },
            Err(e) => e == GitrError::TagAlreadyExistsError && has_current(*old(repo))
                && ref_current(repo_refs(*old(repo)), tag_ref(tag_name@)) is Some && final(repo).refs@ == old(repo).refs@,
        },
{
    let current_commit = match get_current_commit(repo) {
        Ok(commit) => commit,
        Err(_) => {
            return Ok(false);
        },
    };
    let full = full_tag_name(tag_name);
    if ref_lookup(&repo.refs, full.as_slice()).is_some() {
        return Err(GitrError::TagAlreadyExistsError);
    }
    write_ref(&mut repo.refs, full.as_slice(), current_commit.as_slice());
    Ok(true)
}

/// Makes a tag object named `tag_name`, with the message `tag_message`, for
/// the commit that `HEAD` resolves to, saves it, and makes the tag
/// `tag_name` point at it. It tells whether it did: it does nothing where
/// `HEAD` resolves to no commit. Fails, changing nothing, with
/// `TagAlreadyExistsError` where there is a tag of that name, with
/// `MalformedObject` where the fields make no well-formed tag, and with
/// `CompressionError` where the object cannot be compressed.
pub fn create_annotated_tag(
    tag_name: &[u8],
    tag_message: &[u8],
    cliente: &[u8],
    mail: &[u8],
    timestamp: usize,
    repo: &mut Repository,
) -> (r: Result<bool, GitrError>)
    ensures
        final(repo).head@ == old(repo).head@,
        final(repo).index@ == old(repo).index@,
        ({
            let refs = repo_refs(*old(repo));
            let t = TagView {
                target: ref_current(refs, old(repo).head@).unwrap(),
                name: tag_name@,
                tagger: identity_line(cliente@, mail@, timestamp as nat),
                message: tag_message@ + seq![10u8],
            };
            let id = object_id(ObjectKind::Tag, tag_payload(t));
            match r {
                Ok(made) => made == has_current(*old(repo)) && if made {
                    &&& ref_current(refs, tag_ref(tag_name@)) is None
                    &&& tag_wf(t)
                    &&& repo_refs(*final(repo)) == refs.push((id, tag_ref(tag_name@)))
                    &&& final(repo).objects@ == written(
                        old(repo).objects@,
                        id,
                        zlib_stream(canonical(ObjectKind::Tag, tag_payload(t))),
                    )
                } else {
                    final(repo).refs@ == old(repo).refs@ && final(repo).objects@ == old(repo).objects@
                },
                Err(e) => {
                    &&& has_current(*old(repo))
                    &&& final(repo).refs@ == old(repo).refs@
                    &&& final(repo).objects@ == old(repo).objects@
                    &&& if ref_current(refs, tag_ref(tag_name@)) is Some {
                        e == GitrError::TagAlreadyExistsError
                    } else if !tag_wf(t) {
                        e == GitrError::MalformedObject
                    } else {
                        e == GitrError::CompressionError && !holds(old(repo).objects@, id)
                            && !compresses(canonical(ObjectKind::Tag, tag_payload(t)))
                    }
                },
            }
        }),
{
    let current_commit = match get_current_commit(repo) {
        Ok(commit) => commit,
        Err(_) => {
            return Ok(false);
        },
    };
    let full = full_tag_name(tag_name);
    if ref_lookup(&repo.refs, full.as_slice()).is_some() {
        return Err(GitrError::TagAlreadyExistsError);
    }
    let name = copy_range(tag_name, 0, tag_name.len());
    assert(name@ =~= tag_name@);
    let tag = match Tag::new(name, tag_message, current_commit, cliente, mail, timestamp) {
        Ok(tag) => tag,
        Err(e) => {
            return Err(e);
        },
    };
    match tag.save(&mut repo.objects) {
        Ok(_) => {},
        Err(e) => {
            return Err(e);
        },
    }
    let id = tag.get_hash();
    write_ref(&mut repo.refs, full.as_slice(), id.as_slice());
    Ok(true)
}

/// What is said of a tag that was deleted: its name and the start of the
/// id that it pointed at.
pub open spec fn deleted_tag_text(tag: Seq<u8>, id: Seq<u8>) -> Seq<u8> {
    ascii("Deleted tag '"@) + tag + ascii("' (was "@) + short_id(id) + ascii(")"@)
}

/// Deletes the tag named `tag`, and gives what is said of it. Fails with
/// `TagNonExistsError`, changing nothing, where there is no such tag.
pub fn delete_tag(tag: &[u8], repo: &mut Repository) -> (r: Result<Vec<u8>, GitrError>)
    ensures
        final(repo).head@ == old(repo).head@,
        final(repo).objects@ == old(repo).objects@,
        final(repo).index@ == old(repo).index@,
        match ref_current(repo_refs(*old(repo)), tag_ref(tag@)) {
            Some(id) => r matches Ok(text) && text@ == deleted_tag_text(tag@, id) && repo_refs(
                *final(repo),
            ) == ref_removed(repo_refs(*old(repo)), tag_ref(tag@)),
            None => r == Err::<Vec<u8>, GitrError>(GitrError::TagNonExistsError) && final(repo).refs@ == old(repo).refs@,
        },
{
    let full = full_tag_name(tag);
    let hash = match ref_lookup(&repo.refs, full.as_slice()) {
        Some(hash) => hash,
        None => {
            return Err(GitrError::TagNonExistsError);
        },
    };
    remove_ref(&mut repo.refs, full.as_slice());
    proof {
        reveal_strlit("Deleted tag '");
        reveal_strlit("' (was ");
        reveal_strlit(")");
    }
    let mut res = bytes_of("Deleted tag '");
    push_all(&mut res, tag);
    push_all(&mut res, bytes_of("' (was ").as_slice());
    if hash.len() > 7 {
        crate::text::push_range(&mut res, hash.as_slice(), 0, 7);
    } else {
        push_all(&mut res, hash.as_slice());
    }
    push_all(&mut res, bytes_of(")").as_slice());
    assert(res@ =~= deleted_tag_text(tag@, hash@));
    Ok(res)
}

/// Deletes the branch `branch`, if it is there. When `moving` is not set it
/// fails with `DeleteCurrentBranchError`, changing nothing, where `HEAD`
/// points at that branch or at nothing.
pub fn delete_branch(branch: &[u8], moving: bool, repo: &mut Repository) -> (r: Result<
    (),
    GitrError,
>)
    ensures
        final(repo).head@ == old(repo).head@,
        final(repo).objects@ == old(repo).objects@,
        final(repo).index@ == old(repo).index@,
        ({
            let full = crate::commands::command_utils::branch_ref(branch@);
            if !moving && (old(repo).head@ == full || old(repo).head@ == ascii("None"@)) {
                r == Err::<(), GitrError>(GitrError::DeleteCurrentBranchError) && final(repo).refs@ == old(repo).refs@
            } else {
                r is Ok && repo_refs(*final(repo)) == ref_removed(repo_refs(*old(repo)), full)
            }
        }),
{
    proof {
        reveal_strlit("None");
    }
    let full = crate::commands::command_utils::full_branch_name(branch);
    if !moving && (bytes_eq(repo.head.as_slice(), full.as_slice()) || bytes_eq(
        repo.head.as_slice(),
        bytes_of("None").as_slice(),
    )) {
        return Err(GitrError::DeleteCurrentBranchError);
    }
    remove_ref(&mut repo.refs, full.as_slice());
    Ok(())
}

/// Whether the branch that `HEAD` points at has a commit: `NoHead` where
/// the name that `HEAD` holds has fewer than three parts between slashes,
/// `NoCommitExisting` where no reference has that name.
pub fn commit_existing(repo: &Repository) -> (r: Result<(), GitrError>)
    ensures
        r == if split_on(repo.head@, 47).len() < 3 {
            Err::<(), GitrError>(GitrError::NoHead)
        } else if ref_current(repo_refs(*repo), repo.head@) is None {
            Err::<(), GitrError>(GitrError::NoCommitExisting)
        } else {
            Ok::<(), GitrError>(())
        },
{
    let parts = split(repo.head.as_slice(), 47u8);
    if parts.len() < 3 {
        return Err(GitrError::NoHead);
    }
    match ref_lookup(&repo.refs, repo.head.as_slice()) {
        Some(_) => Ok(()),
        None => Err(GitrError::NoCommitExisting),
    }
}

/// The ids of those of the first `n` references whose name starts with
/// `prefix`, in order.
pub open spec fn ids_under(refs: Seq<(Seq<u8>, Seq<u8>)>, prefix: Seq<u8>, n: int) -> Seq<Seq<u8>>
    decreases n,
{
    if n <= 0 {
        Seq::empty()
    } else if has_prefix(refs[n - 1].1, prefix) {
        ids_under(refs, prefix, n - 1).push(refs[n - 1].0)
    } else {
        ids_under(refs, prefix, n - 1)
    }
}

/// The ids that the references of one kind point at: `carpeta` is `heads`
/// for the branches and `tags` for the tags.
pub fn get_refs_ids(carpeta: &[u8], repo: &Repository) -> (r: Result<Vec<Vec<u8>>, GitrError>)
    ensures
        r matches Ok(ids) && seqs(ids@) == ids_under(
            repo_refs(*repo),
            ascii("refs/"@) + carpeta@ + seq![47u8],
            repo.refs@.len() as int,
        ),
{
    proof {
        reveal_strlit("refs/");
    }
    let mut prefix = bytes_of("refs/");
    push_all(&mut prefix, carpeta);
    prefix.push(47u8);
    assert(prefix@ =~= ascii("refs/"@) + carpeta@ + seq![47u8]);
    let ghost refs = repo_refs(*repo);
    let mut ids: Vec<Vec<u8>> = Vec::new();
    let mut i: usize = 0;
    assert(seqs(ids@) =~= ids_under(refs, prefix@, 0));
    while i < repo.refs.len()
        invariant
            i <= repo.refs@.len(),
            refs == repo_refs(*repo),
            refs == refs_view(repo.refs@),
            seqs(ids@) == ids_under(refs, prefix@, i as int),
        decreases repo.refs@.len() - i,
    {
        let ghost before = seqs(ids@);
        assert(refs[i as int] == (repo.refs@[i as int].0@, repo.refs@[i as int].1@));
        if starts_with(repo.refs[i].1.as_slice(), prefix.as_slice()) {
            ids.push(repo.refs[i].0.clone());
            assert(seqs(ids@) =~= before.push(refs[i as int].0));
        }
        i = i + 1;
    }
    Ok(ids)
}

/// The references after those that a clone was told of were written, the
/// second to the `n`-th of `references` (pairs of id and name).
pub open spec fn cloned_refs(
    refs: Seq<(Seq<u8>, Seq<u8>)>,
    references: Seq<(Seq<u8>, Seq<u8>)>,
    n: int,
) -> Seq<(Seq<u8>, Seq<u8>)>
    decreases n,
{
    if n <= 1 {
        refs
    } else {
        ref_put(cloned_refs(refs, references, n - 1), references[n - 1].1, references[n - 1].0)
    }
}

/// What `HEAD` points at after a clone: the last of the second to the
/// `n`-th of `references` that points at the id of the first; what it
/// pointed at before where there is none.
pub open spec fn cloned_head(head: Seq<u8>, references: Seq<(Seq<u8>, Seq<u8>)>, n: int) -> Seq<u8>
    decreases n,
{
    if n <= 1 {
        head
    } else if references[n - 1].0 == references[0].0 {
        references[n - 1].1
    } else {
        cloned_head(head, references, n - 1)
    }
}

/// Writes the references that a clone was told of: the first of
/// `references` is what `HEAD` points at on the other side, each of the
/// others becomes a reference here, and `HEAD` comes to point at the last of
/// them that has the id of the first. Fails with `InvalidArgumentError`,
/// changing nothing, where `references` is empty.
pub fn write_reference_from_cloning(references: &Vec<(Vec<u8>, Vec<u8>)>, repo: &mut Repository) -> (r:
    Result<(), GitrError>)
    ensures
        final(repo).objects@ == old(repo).objects@,
        final(repo).index@ == old(repo).index@,
        if references@.len() == 0 {
            r == Err::<(), GitrError>(GitrError::InvalidArgumentError) && final(repo).refs@ == old(repo).refs@ && final(repo).head@ == old(repo).head@
        } else {
            r is Ok && repo_refs(*final(repo)) == cloned_refs(
                repo_refs(*old(repo)),
                refs_view(references@),
                references@.len() as int,
            ) && final(repo).head@ == cloned_head(
                old(repo).head@,
                refs_view(references@),
                references@.len() as int,
            )
        },
{
    if references.len() == 0 {
        return Err(GitrError::InvalidArgumentError);
    }
    let ghost all = refs_view(references@);
    let ghost start = repo_refs(*repo);
    let ghost head = repo.head@;
    let mut i: usize = 1;
    while i < references.len()
        invariant
            1 <= i <= references@.len(),
            all == refs_view(references@),
            repo.objects@ == old(repo).objects@,
            repo.index@ == old(repo).index@,
            repo_refs(*repo) == cloned_refs(start, all, i as int),
            repo.head@ == cloned_head(head, all, i as int),
        decreases references@.len() - i,
    {
        assert(all[i as int] == (references@[i as int].0@, references@[i as int].1@));
        assert(all[0] == (references@[0].0@, references@[0].1@));
        if bytes_eq(references[0].0.as_slice(), references[i].0.as_slice()) {
            repo.head = references[i].1.clone();
        }
        write_ref(&mut repo.refs, references[i].1.as_slice(), references[i].0.as_slice());
        i = i + 1;
    }
    Ok(())
}

} // verus!
