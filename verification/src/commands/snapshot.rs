use crate::commands::status::files_view;
use crate::file_manager::{
    get_current_commit, get_main_tree, repo_refs, stored_commit, stored_object, ObjectStore,
    Repository,
};
use crate::gitr_errors::GitrError;
use crate::objects::git_object::{GitObject, GitObjectView};
use crate::objects::tree::{Tree, TreeItemView};
use crate::server::server_utils::ref_current;
use crate::text::{ascii, push_all};
use vstd::prelude::*;

verus! {

/// The path of what is named `name` in the directory `dir`.
pub open spec fn under(dir: Seq<u8>, name: Seq<u8>) -> Seq<u8> {
    dir + seq![47u8] + name
}

/// Executable `under`.
fn path_under(dir: &[u8], name: &[u8]) -> (r: Vec<u8>)
    ensures
        r@ == under(dir@, name@),
{
    let mut path: Vec<u8> = Vec::new();
    push_all(&mut path, dir);
    path.push(47u8);
    push_all(&mut path, name);
    assert(path@ =~= under(dir@, name@));
    path
}

/// The files that the entries `items` of a tree, from the `from`-th on,
/// bring to the directory `dir`, as pairs of path and blob id and in the
/// order of the entries: an entry that is a file brings itself, one that is
/// a tree brings what the entries of that tree bring to the directory that
/// it names. Trees are followed `depth` levels down; `InvalidCommitGraph`
/// where they go deeper, `MalformedObject` where an entry that should be a
/// tree is stored as something else, and the store's own error where it
/// cannot be read.
pub open spec fn files_under(
    store: Seq<(Seq<u8>, Seq<u8>)>,
    items: Seq<TreeItemView>,
    from: int,
    dir: Seq<u8>,
    depth: nat,
) -> Result<Seq<(Seq<u8>, Seq<u8>)>, GitrError>
    decreases depth, items.len() - from,
{
    if from < 0 || from >= items.len() {
        Ok(Seq::empty())
    } else {
        let item = items[from];
        let first = if !item.is_tree() {
            Ok(seq![(under(dir, item.name), item.id)])
        } else if depth == 0 {
            Err(GitrError::InvalidCommitGraph)
        } else {
            match stored_object(store, item.id) {
                Err(e) => Err(e),
                Ok(GitObjectView::Tree(inner)) => files_under(
                    store,
                    inner,
                    0,
                    under(dir, item.name),
                    (depth - 1) as nat,
                ),
                Ok(_) => Err(GitrError::MalformedObject),
            }
        };
        match first {
            Err(e) => Err(e),
            Ok(files) => match files_under(store, items, from + 1, dir, depth) {
                Err(e) => Err(e),
                Ok(rest) => Ok(files + rest),
            },
        }
    }
}

/// The files that the tree stored under `id` brings to the directory `dir`.
pub open spec fn files_of_tree(
    store: Seq<(Seq<u8>, Seq<u8>)>,
    id: Seq<u8>,
    dir: Seq<u8>,
    depth: nat,
) -> Result<Seq<(Seq<u8>, Seq<u8>)>, GitrError> {
    match stored_object(store, id) {
        Err(e) => Err(e),
        Ok(GitObjectView::Tree(items)) => files_under(store, items, 0, dir, depth),
        Ok(_) => Err(GitrError::MalformedObject),
    }
}

/// Gets the tree stored under `id`.
fn load_tree(id: &[u8], store: &ObjectStore) -> (r: Result<Tree, GitrError>)
    ensures
        match r {
            Ok(tree) => stored_object(store@, id@) == Ok::<GitObjectView, GitrError>(
                GitObjectView::Tree(tree@),
            ),
            Err(e) => match stored_object(store@, id@) {
                Err(err) => e == err,
                Ok(GitObjectView::Tree(_)) => false,
                Ok(_) => e == GitrError::MalformedObject,
            },
        },
{
    match store.get(id) {
        Err(e) => Err(e),
        Ok(GitObject::Tree(tree)) => Ok(tree),
        Ok(_) => Err(GitrError::MalformedObject),
    }
}

/// Executable `files_under`, for all the entries of a tree.
fn tree_files(store: &ObjectStore, tree: &Tree, dir: &[u8], depth: usize) -> (r: Result<
    Vec<(Vec<u8>, Vec<u8>)>,
    GitrError,
>)
    ensures
        match r {
            Ok(files) => files_under(store@, tree@, 0, dir@, depth as nat) == Ok::<
                Seq<(Seq<u8>, Seq<u8>)>,
                GitrError,
            >(files_view(files@)),
            Err(e) => files_under(store@, tree@, 0, dir@, depth as nat) == Err::<
                Seq<(Seq<u8>, Seq<u8>)>,
                GitrError,
            >(e),
        },
    decreases depth,
{
    let ghost sv = store@;
    let ghost items = tree@;
    let ghost whole = files_under(sv, items, 0, dir@, depth as nat);
    let mut out: Vec<(Vec<u8>, Vec<u8>)> = Vec::new();
    let mut i: usize = 0;
    proof {
        match whole {
            Ok(rest) => {
                assert(files_view(out@) + rest =~= rest);
            },
            Err(_) => {},
        }
    }
    while i < tree.len()
        invariant
            i <= items.len(),
            sv == store@,
            items == tree@,
            whole == files_under(sv, items, 0, dir@, depth as nat),
            whole == match files_under(sv, items, i as int, dir@, depth as nat) {
                Ok(rest) => Ok::<Seq<(Seq<u8>, Seq<u8>)>, GitrError>(files_view(out@) + rest),
                Err(e) => Err::<Seq<(Seq<u8>, Seq<u8>)>, GitrError>(e),
            },
        decreases items.len() - i,
    {
        let (is_tree, name, id) = tree.get_entry(i);
        let path = path_under(dir, name.as_slice());
        let ghost before = files_view(out@);
        if is_tree {
            if depth == 0 {
                return Err(GitrError::InvalidCommitGraph);
            }
            let inner = match load_tree(id.as_slice(), store) {
                Ok(inner) => inner,
                Err(e) => {
                    return Err(e);
                },
            };
            let mut files = match tree_files(store, &inner, path.as_slice(), depth - 1) {
                Ok(files) => files,
                Err(e) => {
                    return Err(e);
                },
            };
            let ghost found = files_view(files@);
            out.append(&mut files);
            proof {
                assert(files_view(out@) =~= before + found);
                match files_under(sv, items, i + 1, dir@, depth as nat) {
                    Ok(rest) => {
                        assert(files_view(out@) + rest =~= before + (found + rest));
                    },
                    Err(_) => {},
                }
            }
        } else {
            let ghost file = (path@, id@);
            out.push((path, id));
            proof {
                assert(files_view(out@) =~= before + seq![file]);
                match files_under(sv, items, i + 1, dir@, depth as nat) {
                    Ok(rest) => {
                        assert(files_view(out@) + rest =~= before + (seq![file] + rest));
                    },
                    Err(_) => {},
                }
            }
        }
        i = i + 1;
    }
    proof {
        assert(files_view(out@) + Seq::<(Seq<u8>, Seq<u8>)>::empty() =~= files_view(out@));
    }
    Ok(out)
}

/// Adds to `tree_hashmap` the files that the tree stored under
/// `hash_of_tree_to_read` brings to the directory `file_path`. Trees are
/// followed as many levels down as the store has objects. On failure
/// `tree_hashmap` stays as it was.
pub fn get_subtrees_data(
    hash_of_tree_to_read: &[u8],
    file_path: &[u8],
    tree_hashmap: &mut Vec<(Vec<u8>, Vec<u8>)>,
    store: &ObjectStore,
) -> (r: Result<(), GitrError>)
    ensures
        match r {
            Ok(_) => files_of_tree(
                store@,
                hash_of_tree_to_read@,
                file_path@,
                store@.len(),
            ) matches Ok(files) && files_view(final(tree_hashmap)@) == files_view(
                old(tree_hashmap)@,
            ) + files,
            Err(e) => files_of_tree(store@, hash_of_tree_to_read@, file_path@, store@.len())
                == Err::<Seq<(Seq<u8>, Seq<u8>)>, GitrError>(e) && final(tree_hashmap)@ == old(
                tree_hashmap,
            )@,
        },
{
    let tree = match load_tree(hash_of_tree_to_read, store) {
        Ok(tree) => tree,
        Err(e) => {
            return Err(e);
        },
    };
    let mut files = match tree_files(store, &tree, file_path, store.objects.len()) {
        Ok(files) => files,
        Err(e) => {
            return Err(e);
        },
    };
    let ghost before = files_view(tree_hashmap@);
    let ghost found = files_view(files@);
    tree_hashmap.append(&mut files);
    assert(files_view(tree_hashmap@) =~= before + found);
    Ok(())
}

/// The files of the commit `commit`, with paths that start with the name of
/// the repository; none for the empty id.
pub open spec fn commit_files(repo: Repository, commit: Seq<u8>) -> Result<
    Seq<(Seq<u8>, Seq<u8>)>,
    GitrError,
> {
    if commit.len() == 0 {
        Ok(Seq::empty())
    } else {
        match stored_commit(repo.objects@, commit) {
            Err(e) => Err(e),
            Ok(c) => files_of_tree(repo.objects@, c.tree, repo.name@, repo.objects@.len()),
        }
    }
}

/// The files of the commit `commit`: those of its tree and of the trees
/// inside it.
pub fn get_commit_hashmap(commit: &[u8], repo: &Repository) -> (r: Result<
    Vec<(Vec<u8>, Vec<u8>)>,
    GitrError,
>)
    ensures
        match r {
            Ok(files) => commit_files(*repo, commit@) == Ok::<
                Seq<(Seq<u8>, Seq<u8>)>,
                GitrError,
            >(files_view(files@)),
            Err(e) => commit_files(*repo, commit@) == Err::<Seq<(Seq<u8>, Seq<u8>)>, GitrError>(e),
        },
{
    let mut tree_hashmap: Vec<(Vec<u8>, Vec<u8>)> = Vec::new();
    if commit.len() == 0 {
        assert(files_view(tree_hashmap@) =~= Seq::<(Seq<u8>, Seq<u8>)>::empty());
        return Ok(tree_hashmap);
    }
    let tree = match get_main_tree(commit, &repo.objects) {
        Ok(tree) => tree,
        Err(e) => {
            return Err(e);
        },
    };
    match get_subtrees_data(tree.as_slice(), repo.name.as_slice(), &mut tree_hashmap, &repo.objects) {
        Ok(_) => {
            proof {
                let files = files_of_tree(
                    repo.objects@,
                    tree@,
                    repo.name@,
                    repo.objects@.len(),
                ).unwrap();
                assert(Seq::<(Seq<u8>, Seq<u8>)>::empty() + files =~= files);
            }
            Ok(tree_hashmap)
        },
        Err(e) => Err(e),
    }
}

/// The entries `items` of a tree as they stand in the directory `dir`, the
/// first `n` of them: each with its path and its id, trees too.
pub open spec fn entries_under(items: Seq<TreeItemView>, dir: Seq<u8>, n: int) -> Seq<
    (Seq<u8>, Seq<u8>),
>
    decreases n,
{
    if n <= 0 {
        Seq::empty()
    } else {
        entries_under(items, dir, n - 1).push((under(dir, items[n - 1].name), items[n - 1].id))
    }
}

/// What the tree of the commit that `HEAD` resolves to holds directly, with
/// paths that start with the name of the repository; nothing where `HEAD`
/// resolves to no commit.
pub open spec fn current_entries(repo: Repository) -> Result<Seq<(Seq<u8>, Seq<u8>)>, GitrError> {
    if repo.head@ == ascii("None"@) {
        Ok(Seq::empty())
    } else {
        match ref_current(repo_refs(repo), repo.head@) {
            None => Ok(Seq::empty()),
            Some(commit) => match stored_commit(repo.objects@, commit) {
                Err(e) => Err(e),
                Ok(c) => match stored_object(repo.objects@, c.tree) {
                    Err(e) => Err(e),
                    Ok(GitObjectView::Tree(items)) => Ok(
                        entries_under(items, repo.name@, items.len() as int),
                    ),
                    Ok(_) => Err(GitrError::MalformedObject),
                },
            },
        }
    }
}

/// What the tree of the current commit holds directly.
pub fn get_current_commit_hashmap(repo: &Repository) -> (r: Result<
    Vec<(Vec<u8>, Vec<u8>)>,
    GitrError,
>)
    ensures
        match r {
            Ok(files) => current_entries(*repo) == Ok::<Seq<(Seq<u8>, Seq<u8>)>, GitrError>(
                files_view(files@),
            ),
            Err(e) => current_entries(*repo) == Err::<Seq<(Seq<u8>, Seq<u8>)>, GitrError>(e),
        },
{
    let mut tree_hashmap: Vec<(Vec<u8>, Vec<u8>)> = Vec::new();
    assert(files_view(tree_hashmap@) =~= Seq::<(Seq<u8>, Seq<u8>)>::empty());
    let current_commit = match get_current_commit(repo) {
        Ok(commit) => commit,
        Err(_) => {
            return Ok(tree_hashmap);
        },
    };
    let tree_id = match get_main_tree(current_commit.as_slice(), &repo.objects) {
        Ok(tree) => tree,
        Err(e) => {
            return Err(e);
        },
    };
    let tree = match load_tree(tree_id.as_slice(), &repo.objects) {
        Ok(tree) => tree,
        Err(e) => {
            return Err(e);
        },
    };
    let ghost items = tree@;
    let mut i: usize = 0;
    while i < tree.len()
        invariant
            i <= items.len(),
            items == tree@,
            files_view(tree_hashmap@) == entries_under(items, repo.name@, i as int),
        decreases items.len() - i,
    {
        let (_is_tree, name, id) = tree.get_entry(i);
        let path = path_under(repo.name.as_slice(), name.as_slice());
        let ghost before = files_view(tree_hashmap@);
        let ghost file = (path@, id@);
        tree_hashmap.push((path, id));
        assert(files_view(tree_hashmap@) =~= before.push(file));
        i = i + 1;
    }
    Ok(tree_hashmap)
}

} // verus!
