use crate::commands::command_utils::write_new_commit_and_branch;
use crate::commands::staging::{get_index_hashmap, staged_files};
use crate::commands::status::files_view;
use crate::file_manager::{holds, repo_refs, stored_object, written, ObjectStore, Repository};
use crate::server::server_utils::ref_put;
use crate::gitr_errors::GitrError;
use crate::objects::blob::TreeEntry;
use crate::objects::git_object::{GitObject, GitObjectView};
use crate::codec::compresses;
use crate::commands::command_utils::new_parents;
use crate::objects::commit::{commit_payload, commit_wf, identity_line, unquoted, CommitView};
use crate::objects::git_object::{canonical, object_id, ObjectKind};
use crate::server::server_utils::ref_current;
use crate::objects::tree::{
    base_name, base_start, entries_view, lemma_modes, tree_payload, Tree, TreeItemView,
};
use crate::text::{
    ascii, bytes_of, copy_range, find_byte, find_from, has_prefix, lacks, lemma_find_from,
    list_contains, push_all, seqs, starts_with,
};
use vstd::prelude::*;

verus! {

/// Whether the store `later` holds all that `earlier` holds, in the same
/// places, and maybe more after it.
pub open spec fn grown(earlier: Seq<(Seq<u8>, Seq<u8>)>, later: Seq<(Seq<u8>, Seq<u8>)>) -> bool {
    earlier.len() <= later.len() && later.subrange(0, earlier.len() as int) == earlier
}

/// A store that was written to has grown, and holds the id written.
pub proof fn lemma_written_grows(entries: Seq<(Seq<u8>, Seq<u8>)>, id: Seq<u8>, data: Seq<u8>)
    ensures
        grown(entries, written(entries, id, data)),
        holds(written(entries, id, data), id),
{
    let after = written(entries, id, data);
    assert(after.subrange(0, entries.len() as int) =~= entries);
    if !holds(entries, id) {
        assert(after[entries.len() as int].0 == id);
    }
}

/// What a store holds, it holds after it has grown; and growing goes on.
pub proof fn lemma_grown(
    a: Seq<(Seq<u8>, Seq<u8>)>,
    b: Seq<(Seq<u8>, Seq<u8>)>,
    c: Seq<(Seq<u8>, Seq<u8>)>,
    id: Seq<u8>,
)
    requires
        grown(a, b),
        grown(b, c),
    ensures
        grown(a, c),
        holds(a, id) ==> holds(b, id),
{
    assert(c.subrange(0, a.len() as int) =~= c.subrange(0, b.len() as int).subrange(
        0,
        a.len() as int,
    ));
    if holds(a, id) {
        let i = choose|i: int| 0 <= i < a.len() && #[trigger] a[i].0 == id;
        assert(b.subrange(0, a.len() as int)[i] == a[i]);
        assert(b[i].0 == id);
    }
}

/// Whether reading a blob from what the store gave, `found`, fails with
/// `e`: with the store's own error, or with `MalformedObject` for what is
/// no blob.
pub open spec fn blob_fails(found: Result<GitObjectView, GitrError>, e: GitrError) -> bool {
    match found {
        Err(failed) => e == failed,
        Ok(GitObjectView::Blob(_)) => false,
        Ok(_) => e == GitrError::MalformedObject,
    }
}

/// Whether building trees for `files`, pairs of path and blob id, in a
/// store that grows from `before` to `after` fails with `e`: the
/// compressor fails on the canonical form of a tree; or the blob of one of
/// the files cannot be read from the store; or a path holds a NUL.
pub open spec fn build_fails(
    before: Seq<(Seq<u8>, Seq<u8>)>,
    after: Seq<(Seq<u8>, Seq<u8>)>,
    files: Seq<(Seq<u8>, Seq<u8>)>,
    e: GitrError,
) -> bool {
    ||| e == GitrError::CompressionError && exists|payload: Seq<u8>|
        !compresses(#[trigger] canonical(ObjectKind::Tree, payload))
    ||| exists|k: int, mid: Seq<(Seq<u8>, Seq<u8>)>|
        0 <= k < files.len() && grown(before, mid) && grown(mid, after) && blob_fails(
            #[trigger] stored_object(mid, files[k].1),
            e,
        )
    ||| e == GitrError::MalformedObject && exists|k: int|
        0 <= k < files.len() && !lacks((#[trigger] files[k]).0, 0)
}

/// What makes the building of trees fail in a store that has grown makes
/// it fail in the store before it grew.
proof fn lemma_fails_above(
    start: Seq<(Seq<u8>, Seq<u8>)>,
    before: Seq<(Seq<u8>, Seq<u8>)>,
    after: Seq<(Seq<u8>, Seq<u8>)>,
    files: Seq<(Seq<u8>, Seq<u8>)>,
    e: GitrError,
)
    requires
        grown(start, before),
        build_fails(before, after, files, e),
    ensures
        build_fails(start, after, files, e),
{
    if exists|k: int, mid: Seq<(Seq<u8>, Seq<u8>)>|
        0 <= k < files.len() && grown(before, mid) && grown(mid, after) && blob_fails(
            #[trigger] stored_object(mid, files[k].1),
            e,
        ) {
        let (k, mid) = choose|k: int, mid: Seq<(Seq<u8>, Seq<u8>)>|
            0 <= k < files.len() && grown(before, mid) && grown(mid, after) && blob_fails(
                #[trigger] stored_object(mid, files[k].1),
                e,
            );
        lemma_grown(start, before, mid, Seq::empty());
    }
}

/// Whether none of the paths of `files` holds a NUL.
pub open spec fn nul_free(files: Seq<(Seq<u8>, Seq<u8>)>) -> bool {
    forall|k: int| 0 <= k < files.len() ==> lacks((#[trigger] files[k]).0, 0)
}

/// What the file at `path` gives to the tree of the directory `dir`: the
/// name of an entry and whether it is a tree. A file right under `dir`
/// gives an entry of its own name; one further down gives a tree named by
/// the directory under `dir` that it is in; one outside `dir` gives none.
pub open spec fn child_of(path: Seq<u8>, dir: Seq<u8>) -> Option<(Seq<u8>, bool)> {
    let prefix = dir + seq![47u8];
    let rest = path.subrange(prefix.len() as int, path.len() as int);
    let at = find_from(rest, 47, 0);
    if !has_prefix(path, prefix) {
        None
    } else if at >= rest.len() {
        Some((rest, false))
    } else {
        Some((rest.subrange(0, at), true))
    }
}

/// Whether one of `items` has the name `name` and is a tree or not as
/// `is_tree` tells.
pub open spec fn has_item(items: Seq<TreeItemView>, name: Seq<u8>, is_tree: bool) -> bool {
    exists|j: int| 0 <= j < items.len() && (#[trigger] items[j]).name == name && items[j].is_tree()
        == is_tree
}

/// Whether one of `files` gives an entry of the name `name`, tree or not
/// as `is_tree` tells, to the tree of `dir`.
pub open spec fn has_child(files: Seq<(Seq<u8>, Seq<u8>)>, dir: Seq<u8>, name: Seq<u8>, is_tree: bool) -> bool {
    exists|k: int| 0 <= k < files.len() && child_of((#[trigger] files[k]).0, dir) == Some((name, is_tree))
}

/// Whether the tree with the entries `items` is that of the directory
/// `dir` for the files `files`: it has an entry for what each file gives
/// to it, and no other entry.
pub open spec fn holds_children(files: Seq<(Seq<u8>, Seq<u8>)>, dir: Seq<u8>, items: Seq<TreeItemView>) -> bool {
    &&& forall|k: int|
        0 <= k < files.len() ==> match child_of((#[trigger] files[k]).0, dir) {
            Some((name, is_tree)) => has_item(items, name, is_tree),
            None => true,
        }
    &&& forall|j: int|
        0 <= j < items.len() ==> has_child(files, dir, (#[trigger] items[j]).name, items[j].is_tree())
}

/// A name without a slash is its own last component.
proof fn lemma_name_is_base(name: Seq<u8>, i: int)
    requires
        lacks(name, 47),
        0 <= i <= name.len(),
    ensures
        base_start(name, i) == 0,
    decreases i,
{
    if i > 0 {
        lemma_name_is_base(name, i - 1);
    }
}

/// Gets the blob stored under `id` as an entry of a tree: the store's own
/// error where nothing can be read there, and `MalformedObject` where what
/// is stored there is no blob.
fn blob_entry(id: &[u8], store: &ObjectStore) -> (r: Result<TreeEntry, GitrError>)
    ensures
        match stored_object(store@, id@) {
            Err(e) => r == Err::<TreeEntry, GitrError>(e),
            Ok(GitObjectView::Blob(content)) => r matches Ok(TreeEntry::Blob(blob)) && blob@
                == content,
            Ok(_) => r == Err::<TreeEntry, GitrError>(GitrError::MalformedObject),
        },
{
    match store.get(id) {
        Err(e) => Err(e),
        Ok(GitObject::Blob(blob)) => Ok(TreeEntry::Blob(blob)),
        Ok(_) => Err(GitrError::MalformedObject),
    }
}

/// A tree that holds the entries given, in whatever order, has an entry
/// for what each file gives to it, and no other.
proof fn lemma_tree_children(
    given: Seq<(Vec<u8>, TreeEntry)>,
    fv: Seq<(Seq<u8>, Seq<u8>)>,
    dir: Seq<u8>,
    items: Seq<TreeItemView>,
)
    requires
        items.to_multiset() == entries_view(given).to_multiset(),
        forall|k: int|
            0 <= k < fv.len() ==> match child_of((#[trigger] fv[k]).0, dir) {
                Some((name, is_tree)) => has_item(entries_view(given), name, is_tree),
                None => true,
            },
        forall|j: int|
            0 <= j < given.len() ==> lacks((#[trigger] given[j]).0@, 47) && has_child(
                fv,
                dir,
                given[j].0@,
                given[j].1.is_tree(),
            ),
    ensures
        holds_children(fv, dir, items),
{
    let ev = entries_view(given);
    lemma_modes();
    assert forall|k: int| 0 <= k < fv.len() implies match child_of((#[trigger] fv[k]).0, dir) {
        Some((name, is_tree)) => has_item(items, name, is_tree),
        None => true,
    } by {
        match child_of(fv[k].0, dir) {
            Some((name, is_tree)) => {
                assert(has_item(ev, name, is_tree));
                let j = choose|j: int|
                    0 <= j < ev.len() && (#[trigger] ev[j]).name == name && ev[j].is_tree()
                        == is_tree;
                assert(ev.contains(ev[j]));
                vstd::seq_lib::to_multiset_contains(ev, ev[j]);
                vstd::seq_lib::to_multiset_contains(items, ev[j]);
                let m = choose|m: int| 0 <= m < items.len() && items[m] == ev[j];
                assert(items[m].name == name && items[m].is_tree() == is_tree);
            },
            None => {},
        }
    }
    assert forall|m: int| 0 <= m < items.len() implies has_child(
        fv,
        dir,
        (#[trigger] items[m]).name,
        items[m].is_tree(),
    ) by {
        assert(items.contains(items[m]));
        vstd::seq_lib::to_multiset_contains(items, items[m]);
        vstd::seq_lib::to_multiset_contains(ev, items[m]);
        let j = choose|j: int| 0 <= j < ev.len() && ev[j] == items[m];
        assert(lacks(given[j].0@, 47));
        lemma_name_is_base(given[j].0@, given[j].0@.len() as int);
        assert(base_name(given[j].0@) =~= given[j].0@);
    }
}

/// Where the name of an entry holds a NUL, a path of the files does.
proof fn lemma_nul_in_path(given: Seq<(Vec<u8>, TreeEntry)>, fv: Seq<(Seq<u8>, Seq<u8>)>)
    requires
        nul_free(fv) ==> forall|j: int| 0 <= j < given.len() ==> lacks((#[trigger] given[j]).0@, 0),
        exists|j: int| 0 <= j < given.len() && !lacks(#[trigger] entries_view(given)[j].name, 0),
    ensures
        !nul_free(fv),
{
    let j = choose|j: int| 0 <= j < given.len() && !lacks(#[trigger] entries_view(given)[j].name, 0);
    let path = given[j].0@;
    crate::objects::tree::lemma_base_start(path, path.len() as int);
    let name = base_name(path);
    let at = choose|at: int| 0 <= at < name.len() && name[at] == 0;
    let from = base_start(path, path.len() as int);
    assert(path[from + at] == 0);
    assert(!lacks(path, 0));
}

/// What the entries gave before one more was added, they give after it.
proof fn lemma_entries_grow(
    had: Seq<(Vec<u8>, TreeEntry)>,
    now: Seq<(Vec<u8>, TreeEntry)>,
    files: Seq<(Seq<u8>, Seq<u8>)>,
    dir: Seq<u8>,
    i: int,
    names: Seq<Seq<u8>>,
)
    requires
        now.len() == had.len() + 1,
        now.drop_last() == had,
        0 <= i < files.len(),
        lacks(now.last().0@, 47),
        child_of(files[i].0, dir) == Some((now.last().0@, now.last().1.is_tree())),
        forall|k: int|
            0 <= k < i ==> match child_of((#[trigger] files[k]).0, dir) {
                Some((name, is_tree)) => has_item(entries_view(had), name, is_tree),
                None => true,
            },
        forall|j: int|
            0 <= j < had.len() ==> lacks((#[trigger] had[j]).0@, 47) && has_child(
                files,
                dir,
                had[j].0@,
                had[j].1.is_tree(),
            ),
        forall|q: int| 0 <= q < names.len() ==> has_item(entries_view(had), #[trigger] names[q], true),
    ensures
        forall|k: int|
            0 <= k < i ==> match child_of((#[trigger] files[k]).0, dir) {
                Some((name, is_tree)) => has_item(entries_view(now), name, is_tree),
                None => true,
            },
        forall|j: int|
            0 <= j < now.len() ==> lacks((#[trigger] now[j]).0@, 47) && has_child(
                files,
                dir,
                now[j].0@,
                now[j].1.is_tree(),
            ),
        forall|q: int| 0 <= q < names.len() ==> has_item(entries_view(now), #[trigger] names[q], true),
{
    let before = entries_view(had);
    let after = entries_view(now);
    assert forall|name: Seq<u8>, is_tree: bool| has_item(before, name, is_tree) implies has_item(
        after,
        name,
        is_tree,
    ) by {
        let j = choose|j: int|
            0 <= j < before.len() && (#[trigger] before[j]).name == name && before[j].is_tree()
                == is_tree;
        assert(now[j] == had[j]);
        assert(after[j] == before[j]);
    }
    assert forall|j: int| 0 <= j < now.len() implies lacks((#[trigger] now[j]).0@, 47)
        && has_child(files, dir, now[j].0@, now[j].1.is_tree()) by {
        if j < had.len() {
            assert(now[j] == had[j]);
        }
    }
}

/// Builds and saves the tree of the directory `dir` from the files
/// `files`, given with their paths and the ids of their blobs: a file
/// right under `dir` becomes an entry for its blob, and a directory under
/// `dir` an entry for the tree that is built for it in the same way.
fn build_tree(files: &Vec<(Vec<u8>, Vec<u8>)>, dir: &[u8], store: &mut ObjectStore, limit: usize) -> (r:
    Result<Tree, GitrError>)
    requires
        dir@.len() <= limit,
        forall|i: int| 0 <= i < files@.len() ==> (#[trigger] files@[i]).0@.len() <= limit,
    ensures
        grown(old(store)@, final(store)@),
        r matches Ok(tree) ==> holds(final(store)@, tree.id()) && holds_children(
            files_view(files@),
            dir@,
            tree@,
        ),
        r matches Err(e) ==> build_fails(old(store)@, final(store)@, files_view(files@), e),
    decreases limit - dir@.len(),
{
    let ghost start = store@;
    let mut prefix = copy_range(dir, 0, dir.len());
    prefix.push(47u8);
    assert(prefix@ =~= dir@ + seq![47u8]);
    let mut entries: Vec<(Vec<u8>, TreeEntry)> = Vec::new();
    let mut seen: Vec<Vec<u8>> = Vec::new();
    let mut i: usize = 0;
    assert(start.subrange(0, start.len() as int) =~= start);
    while i < files.len()
        invariant
            i <= files@.len(),
            dir@.len() <= limit,
            prefix@.len() == dir@.len() + 1,
            forall|k: int| 0 <= k < files@.len() ==> (#[trigger] files@[k]).0@.len() <= limit,
            start == old(store)@,
            grown(start, store@),
            nul_free(files_view(files@)) ==> forall|j: int|
                0 <= j < entries@.len() ==> lacks((#[trigger] entries@[j]).0@, 0),
            prefix@ == dir@ + seq![47u8],
            forall|k: int|
                0 <= k < i ==> match child_of((#[trigger] files_view(files@)[k]).0, dir@) {
                    Some((name, is_tree)) => has_item(entries_view(entries@), name, is_tree),
                    None => true,
                },
            forall|j: int|
                0 <= j < entries@.len() ==> lacks((#[trigger] entries@[j]).0@, 47) && has_child(
                    files_view(files@),
                    dir@,
                    entries@[j].0@,
                    entries@[j].1.is_tree(),
                ),
            forall|q: int|
                0 <= q < seen@.len() ==> has_item(entries_view(entries@), (#[trigger] seen@[q])@, true),
        decreases files@.len() - i,
    {
        let path = files[i].0.as_slice();
        let ghost fv = files_view(files@);
        let ghost had = entries@;
        assert(fv[i as int] == (files@[i as int].0@, files@[i as int].1@));
        if starts_with(path, prefix.as_slice()) {
            let rest = copy_range(path, prefix.len(), path.len());
            let at = find_byte(rest.as_slice(), 47u8, 0);
            if at >= rest.len() {
                let entry = match blob_entry(files[i].1.as_slice(), store) {
                    Ok(entry) => entry,
                    Err(e) => {
                        proof {
                            assert(store@.subrange(0, store@.len() as int) =~= store@);
                            assert(grown(start, store@) && grown(store@, store@));
                            assert(blob_fails(stored_object(store@, fv[i as int].1), e));
                        }
                        return Err(e);
                    },
                };
                let ghost rv = rest@;
                entries.push((rest, entry));
                proof {
                    lemma_modes();
                    lemma_find_from(rv, 47, 0);
                    assert(lacks(rv, 47));
                    assert(child_of(fv[i as int].0, dir@) == Some((rv, false)));
                    assert(entries@.drop_last() =~= had);
                    lemma_entries_grow(had, entries@, fv, dir@, i as int, seqs(seen@));
                    lemma_name_is_base(rv, rv.len() as int);
                    assert(base_name(rv) =~= rv);
                    assert(entries_view(entries@)[had.len() as int].name == rv);
                    assert(has_item(entries_view(entries@), rv, false));
                    assert forall|q: int| 0 <= q < seen@.len() implies has_item(
                        entries_view(entries@),
                        (#[trigger] seen@[q])@,
                        true,
                    ) by {
                        assert(seen@[q]@ == seqs(seen@)[q]);
                    }
                    if nul_free(fv) {
                        assert(lacks(fv[i as int].0, 0));
                        assert(lacks(rv, 0));
                        assert forall|j: int| 0 <= j < entries@.len() implies lacks(
                            (#[trigger] entries@[j]).0@,
                            0,
                        ) by {
                            if j < had.len() {
                                assert(entries@[j] == had[j]);
                            }
                        }
                    }
                }
            } else {
                let name = copy_range(rest.as_slice(), 0, at);
                proof {
                    assert(child_of(fv[i as int].0, dir@) == Some((name@, true)));
                    if seqs(seen@).contains(name@) {
                        let q = choose|q: int| 0 <= q < seen@.len() && seqs(seen@)[q] == name@;
                        assert(seen@[q]@ == name@);
                    }
                }
                if !list_contains(&seen, name.as_slice()) {
                    let mut inner = copy_range(prefix.as_slice(), 0, prefix.len());
                    push_all(&mut inner, name.as_slice());
                    let ghost before = store@;
                    assert(inner@.len() == dir@.len() + 1 + at);
                    assert(files@[i as int].0@.len() <= limit);
                    let tree = match build_tree(files, inner.as_slice(), store, limit) {
                        Ok(tree) => tree,
                        Err(e) => {
                            proof {
                                lemma_grown(start, before, store@, Seq::empty());
                                lemma_fails_above(start, before, store@, fv, e);
                            }
                            return Err(e);
                        },
                    };
                    proof {
                        lemma_grown(start, before, store@, Seq::empty());
                    }
                    let ghost names = seqs(seen@);
                    seen.push(copy_range(name.as_slice(), 0, name.len()));
                    let ghost nv = name@;
                    entries.push((name, TreeEntry::Tree(tree)));
                    proof {
                        lemma_modes();
                        lemma_find_from(rest@, 47, 0);
                        assert(lacks(nv, 47));
                        assert(child_of(fv[i as int].0, dir@) == Some((nv, true)));
                        assert(entries@.drop_last() =~= had);
                        lemma_entries_grow(had, entries@, fv, dir@, i as int, names);
                        lemma_name_is_base(nv, nv.len() as int);
                        assert(base_name(nv) =~= nv);
                        assert(entries_view(entries@)[had.len() as int].name == nv);
                        assert(has_item(entries_view(entries@), nv, true));
                        assert forall|q: int| 0 <= q < seen@.len() implies has_item(
                            entries_view(entries@),
                            (#[trigger] seen@[q])@,
                            true,
                        ) by {
                            if q < names.len() {
                                assert(seen@[q]@ == names[q]);
                            } else {
                                assert(seen@[q]@ =~= nv);
                            }
                        }
                        if nul_free(fv) {
                            assert(lacks(fv[i as int].0, 0));
                            assert(lacks(rest@, 0));
                            assert(lacks(nv, 0));
                            assert forall|j: int| 0 <= j < entries@.len() implies lacks(
                                (#[trigger] entries@[j]).0@,
                                0,
                            ) by {
                                if j < had.len() {
                                    assert(entries@[j] == had[j]);
                                }
                            }
                        }
                    }
                }
            }
        }
        i = i + 1;
    }
    let ghost given = entries@;
    let ghost fv = files_view(files@);
    let tree = match Tree::new(entries) {
        Ok(tree) => tree,
        Err(e) => {
            proof {
                assert(store@.subrange(0, store@.len() as int) =~= store@);
                lemma_nul_in_path(given, fv);
            }
            return Err(e);
        },
    };
    proof {
        lemma_tree_children(given, fv, dir@, tree@);
    }
    let ghost before = store@;
    match tree.save(store) {
        Ok(_) => {},
        Err(e) => {
            assert(!compresses(canonical(ObjectKind::Tree, tree_payload(tree@))));
            assert(store@.subrange(0, store@.len() as int) =~= store@);
            return Err(e);
        },
    }
    proof {
        tree.lemma_id();
        lemma_written_grows(
            before,
            tree.id(),
            crate::codec::zlib_stream(
                crate::objects::git_object::canonical(
                    crate::objects::git_object::ObjectKind::Tree,
                    crate::objects::tree::tree_payload(tree@),
                ),
            ),
        );
        lemma_grown(start, before, store@, Seq::empty());
    }
    Ok(tree)
}

/// Builds and saves the trees for the files `files` (paths and blob ids)
/// that stand below the directory `current_dir`, and gives the tree of
/// that directory. A file right under a directory becomes an entry for
/// its blob, which the store has to hold; a directory becomes an entry
/// for its own tree. The store keeps what it held. It fails as reading
/// the blob of a file fails, with `MalformedObject` where the store holds
/// something else for a file or a path holds a NUL, and with
/// `CompressionError` where the compressor fails on a tree.
pub fn create_trees(files: &Vec<(Vec<u8>, Vec<u8>)>, current_dir: &[u8], store: &mut ObjectStore) -> (r:
    Result<Tree, GitrError>)
    ensures
        grown(old(store)@, final(store)@),
        match r {
            Ok(tree) => holds(final(store)@, tree.id()) && holds_children(
                files_view(files@),
                current_dir@,
                tree@,
            ),
            Err(e) => build_fails(old(store)@, final(store)@, files_view(files@), e),
        },
{
    let mut limit: usize = current_dir.len();
    let mut i: usize = 0;
    while i < files.len()
        invariant
            i <= files@.len(),
            current_dir@.len() <= limit,
            forall|k: int| 0 <= k < i ==> (#[trigger] files@[k]).0@.len() <= limit,
        decreases files@.len() - i,
    {
        if files[i].0.len() > limit {
            limit = files[i].0.len();
        }
        i = i + 1;
    }
    build_tree(files, current_dir, store, limit)
}

/// The commit of the tree `tree` that is made on the branch that `HEAD`
/// points at in `repo`: its parents are the commit that the branch points
/// at, when there is one, and `second_parent` after it unless that is the
/// "no parent" marker; `cliente` is author and committer.
pub open spec fn new_commit(
    repo: Repository,
    tree: Seq<u8>,
    second_parent: Seq<u8>,
    cliente: Seq<u8>,
    mail: Seq<u8>,
    timestamp: nat,
    message: Seq<u8>,
) -> CommitView {
    CommitView {
        tree,
        parents: new_parents(ref_current(repo_refs(repo), repo.head@), second_parent),
        author: identity_line(cliente, mail, timestamp),
        committer: identity_line(cliente, mail, timestamp),
        message: unquoted(message) + seq![10u8],
    }
}

/// Whether making the commit `c` fails with `e`: with `MalformedObject`
/// where its fields are not well-formed, and with `CompressionError` where
/// the compressor fails on its canonical form.
pub open spec fn commit_fails(c: CommitView, e: GitrError) -> bool {
    if commit_wf(c) {
        e == GitrError::CompressionError && !compresses(
            canonical(ObjectKind::Commit, commit_payload(c)),
        )
    } else {
        e == GitrError::MalformedObject
    }
}

/// The files that the index of `repo` holds; none for no index.
pub open spec fn index_files_of(repo: Repository) -> Option<Seq<(Seq<u8>, Seq<u8>)>> {
    if repo.index@.len() == 0 {
        Some(Seq::empty())
    } else {
        staged_files(repo.index@)
    }
}

/// Whether committing what the index of `repo` holds fails with `e`, the
/// store having grown to `after`: with `FileReadError` where the index
/// cannot be read; else as building the trees fails; else as making the
/// commit of some tree fails.
pub open spec fn index_commit_fails(
    repo: Repository,
    after: Seq<(Seq<u8>, Seq<u8>)>,
    second_parent: Seq<u8>,
    cliente: Seq<u8>,
    mail: Seq<u8>,
    timestamp: nat,
    message: Seq<u8>,
    e: GitrError,
) -> bool {
    match index_files_of(repo) {
        None => e == GitrError::FileReadError,
        Some(files) => build_fails(repo.objects@, after, files, e) || exists|tree: Seq<u8>|
            commit_fails(
                #[trigger] new_commit(repo, tree, second_parent, cliente, mail, timestamp, message),
                e,
            ),
    }
}

/// Commits what the index holds on the branch that `HEAD` points at: the
/// trees of the files of the index are built and saved, and a commit of
/// the tree of the repository is made as `write_new_commit_and_branch`
/// makes it. Returns the id of the commit. `HEAD` stays, the store keeps
/// what it held, and on failure the references stay as they were.
pub fn get_tree_entries(
    message: &[u8],
    second_parent: Vec<u8>,
    cliente: &[u8],
    mail: &[u8],
    timestamp: usize,
    repo: &mut Repository,
) -> (r: Result<Vec<u8>, GitrError>)
    ensures
        final(repo).head@ == old(repo).head@,
        final(repo).index@ == old(repo).index@,
        final(repo).name@ == old(repo).name@,
        grown(old(repo).objects@, final(repo).objects@),
        match r {
            Ok(id) => repo_refs(*final(repo)) == ref_put(
                repo_refs(*old(repo)),
                old(repo).head@,
                id@,
            ) && holds(final(repo).objects@, id@) && index_files_of(*old(repo)) is Some
                && exists|tree: Seq<u8>|
                holds(final(repo).objects@, tree) && id@ == object_id(
                    ObjectKind::Commit,
                    commit_payload(
                        #[trigger] new_commit(
                            *old(repo),
                            tree,
                            second_parent@,
                            cliente@,
                            mail@,
                            timestamp as nat,
                            message@,
                        ),
                    ),
                ),
            Err(e) => final(repo).refs@ == old(repo).refs@ && index_commit_fails(
                *old(repo),
                final(repo).objects@,
                second_parent@,
                cliente@,
                mail@,
                timestamp as nat,
                message@,
                e,
            ),
        },
{
    let ghost start = repo.objects@;
    assert(start.subrange(0, start.len() as int) =~= start);
    let (files, _hayindex) = match get_index_hashmap(repo) {
        Ok(found) => found,
        Err(e) => {
            return Err(e);
        },
    };
    let name = repo.name.clone();
    let final_tree = match create_trees(&files, name.as_slice(), &mut repo.objects) {
        Ok(tree) => tree,
        Err(e) => {
            return Err(e);
        },
    };
    let ghost built = repo.objects@;
    let tree_id = final_tree.get_hash();
    let ghost tv = tree_id@;
    let ghost c = new_commit(
        *old(repo),
        tv,
        second_parent@,
        cliente@,
        mail@,
        timestamp as nat,
        message@,
    );
    assert(repo_refs(*repo) == repo_refs(*old(repo)));
    match write_new_commit_and_branch(
        tree_id,
        message,
        second_parent,
        cliente,
        mail,
        timestamp,
        repo,
    ) {
        Ok(id) => {
            proof {
                let data = choose|data: Seq<u8>| repo.objects@ == written(built, id@, data);
                lemma_written_grows(built, id@, data);
                lemma_grown(start, built, repo.objects@, tv);
                assert(holds(repo.objects@, tv));
                assert(id@ == object_id(ObjectKind::Commit, commit_payload(c)));
            }
            Ok(id)
        },
        Err(e) => {
            assert(commit_fails(c, e));
            Err(e)
        },
    }
}

/// The message of the commit that merges the branch `branch_name`.
pub open spec fn merge_message(branch_name: Seq<u8>) -> Seq<u8> {
    ascii("Merge branch '"@) + branch_name + ascii("'"@)
}

/// Executable `merge_message`.
pub fn merge_message_for(branch_name: &[u8]) -> (r: Vec<u8>)
    ensures
        r@ == merge_message(branch_name@),
{
    proof {
        reveal_strlit("Merge branch '");
        reveal_strlit("'");
    }
    let mut message = bytes_of("Merge branch '");
    push_all(&mut message, branch_name);
    push_all(&mut message, bytes_of("'").as_slice());
    message
}

/// Makes the commit that merges the branch `branch_name`, whose tip is
/// `branch_commit`, into the current branch: a commit of what the index
/// holds, with `branch_commit` as its second parent. Where there is no
/// index nothing is done, and the result is none.
pub fn create_merge_commit(
    branch_name: &[u8],
    branch_commit: Vec<u8>,
    cliente: &[u8],
    mail: &[u8],
    timestamp: usize,
    repo: &mut Repository,
) -> (r: Result<Option<Vec<u8>>, GitrError>)
    ensures
        final(repo).head@ == old(repo).head@,
        final(repo).index@ == old(repo).index@,
        final(repo).name@ == old(repo).name@,
        grown(old(repo).objects@, final(repo).objects@),
        match r {
            Ok(Some(id)) => old(repo).index@.len() > 0 && repo_refs(*final(repo)) == ref_put(
                repo_refs(*old(repo)),
                old(repo).head@,
                id@,
            ) && holds(final(repo).objects@, id@),
            Ok(None) => old(repo).index@.len() == 0 && final(repo).refs@ == old(repo).refs@
                && final(repo).objects@ == old(repo).objects@,
            Err(e) => old(repo).index@.len() > 0 && final(repo).refs@ == old(repo).refs@
                && index_commit_fails(
                *old(repo),
                final(repo).objects@,
                branch_commit@,
                cliente@,
                mail@,
                timestamp as nat,
                merge_message(branch_name@),
                e,
            ),
        },
{
    if repo.index.len() == 0 {
        assert(repo.objects@.subrange(0, repo.objects@.len() as int) =~= repo.objects@);
        return Ok(None);
    }
    let message = merge_message_for(branch_name);
    match get_tree_entries(message.as_slice(), branch_commit, cliente, mail, timestamp, repo) {
        Ok(id) => Ok(Some(id)),
        Err(e) => Err(e),
    }
}

} // verus!
