use crate::file_manager::{stored_object, ObjectStore};
use crate::gitr_errors::GitrError;
use crate::objects::commit::{no_parent, Commit};
use crate::objects::tree::Tree;
use crate::objects::git_object::{GitObject, GitObjectView};
use crate::objects::tree::TreeItemView;
use crate::text::{bytes_eq, bytes_of, list_contains, seqs};
use vstd::prelude::*;

verus! {

/// How the walk came to an object, which says what the object has to be: a
/// commit or a tag when it was reached as a starting point, a parent or a
/// tag's target; a tree or a blob when it was reached as an entry of a tree
/// or as the tree of a commit.
#[derive(Debug, Clone, Copy, PartialEq, Eq, Structural)]
pub enum Role {
    History,
    Tree,
    Blob,
}

/// An object that the walk reached.
#[derive(Debug)]
pub struct Node {
    pub id: Vec<u8>,
    pub role: Role,
}

/// The mathematical value of a `Node`.
pub struct NodeView {
    pub id: Seq<u8>,
    pub role: Role,
}

impl View for Node {
    type V = NodeView;

    open spec fn view(&self) -> NodeView {
        NodeView { id: self.id@, role: self.role }
    }
}

/// The values of a sequence of nodes.
pub open spec fn nodes_view(nodes: Seq<Node>) -> Seq<NodeView> {
    Seq::new(nodes.len(), |i: int| nodes[i]@)
}

/// What a walk follows: the edges of history (from a commit to its parents),
/// the edges of content (from a commit to its tree, from a tree to its
/// entries), or both. A tag's target is always followed.
#[derive(Debug, Clone, Copy, PartialEq, Eq, Structural)]
pub struct Follow {
    pub history: bool,
    pub content: bool,
}

/// Whether `id` is the marker for "no parent": empty, or the word `None`.
pub open spec fn is_no_parent(id: Seq<u8>) -> bool {
    id.len() == 0 || id == no_parent()
}

/// Whether the walk stops before a node: it stands for no object, or it is a
/// commit or tag that the other side already has.
pub open spec fn skipped(boundary: Seq<Seq<u8>>, n: NodeView) -> bool {
    is_no_parent(n.id) || (n.role == Role::History && boundary.contains(n.id))
}

/// The nodes for the parents of a commit.
pub open spec fn parent_nodes(parents: Seq<Seq<u8>>) -> Seq<NodeView> {
    Seq::new(parents.len(), |i: int| NodeView { id: parents[i], role: Role::History })
}

/// The nodes for the entries of a tree.
pub open spec fn entry_nodes(items: Seq<TreeItemView>) -> Seq<NodeView> {
    Seq::new(
        items.len(),
        |i: int|
            NodeView {
                id: items[i].id,
                role: if items[i].is_tree() {
                    Role::Tree
                } else {
                    Role::Blob
                },
            },
    )
}

/// Where the walk goes from a node. A blob leads nowhere and is not looked
/// at. Anything else is taken from the store (`ObjectNotFound` and decoding
/// errors come from there): a commit leads to its parents and its tree, as
/// far as they are followed; a tag to its target; a tree to its entries.
/// `InvalidCommitGraph` when what should be a commit or tag is neither,
/// `MalformedObject` when what should be a tree is none.
pub open spec fn successors(store: Seq<(Seq<u8>, Seq<u8>)>, node: NodeView, follow: Follow) -> Result<
    Seq<NodeView>,
    GitrError,
> {
    match node.role {
        Role::Blob => Ok(Seq::empty()),
        Role::Tree => match stored_object(store, node.id) {
            Err(e) => Err(e),
            Ok(GitObjectView::Tree(items)) => Ok(entry_nodes(items)),
            Ok(_) => Err(GitrError::MalformedObject),
        },
        Role::History => match stored_object(store, node.id) {
            Err(e) => Err(e),
            Ok(GitObjectView::Commit(c)) => Ok(
                (if follow.history {
                    parent_nodes(c.parents)
                } else {
                    Seq::empty()
                }) + (if follow.content {
                    seq![NodeView { id: c.tree, role: Role::Tree }]
                } else {
                    Seq::empty()
                }),
            ),
            Ok(GitObjectView::Tag(t)) => Ok(seq![NodeView { id: t.target, role: Role::History }]),
            Ok(_) => Err(GitrError::InvalidCommitGraph),
        },
    }
}

/// Whether `nodes` holds a node with id `id`.
pub open spec fn has_id(nodes: Seq<NodeView>, id: Seq<u8>) -> bool {
    exists|j: int| 0 <= j < nodes.len() && #[trigger] nodes[j].id == id
}

/// Whether each of `targets` is in `nodes`, unless the walk stops before it.
pub open spec fn covered(nodes: Seq<NodeView>, boundary: Seq<Seq<u8>>, targets: Seq<NodeView>) -> bool {
    forall|k: int|
        0 <= k < targets.len() ==> skipped(boundary, #[trigger] targets[k]) || has_id(
            nodes,
            targets[k].id,
        )
}

/// Whether the walk went on from node `i`: its successors could be told and
/// are all in `nodes`, unless the walk stops before them.
pub open spec fn expanded(
    store: Seq<(Seq<u8>, Seq<u8>)>,
    boundary: Seq<Seq<u8>>,
    follow: Follow,
    nodes: Seq<NodeView>,
    i: int,
) -> bool {
    successors(store, nodes[i], follow) matches Ok(targets) && covered(nodes, boundary, targets)
}

/// Whether the walk goes from `from` to `to`.
pub open spec fn is_successor(
    store: Seq<(Seq<u8>, Seq<u8>)>,
    follow: Follow,
    from: NodeView,
    to: NodeView,
) -> bool {
    match successors(store, from, follow) {
        Ok(targets) => targets.contains(to),
        Err(_) => false,
    }
}

/// Whether node `i` has a reason to be in `nodes`: it is a starting point,
/// or a successor of a node before it.
pub open spec fn derived(
    store: Seq<(Seq<u8>, Seq<u8>)>,
    follow: Follow,
    starts: Seq<NodeView>,
    nodes: Seq<NodeView>,
    i: int,
) -> bool {
    starts.contains(nodes[i]) || exists|j: int|
        0 <= j < i && is_successor(store, follow, #[trigger] nodes[j], nodes[i])
}

/// Whether `nodes` is made of starting points and successors only, each id
/// once, none that the walk stops before.
pub open spec fn well_derived(
    store: Seq<(Seq<u8>, Seq<u8>)>,
    boundary: Seq<Seq<u8>>,
    follow: Follow,
    starts: Seq<NodeView>,
    nodes: Seq<NodeView>,
) -> bool {
    &&& forall|i: int, j: int|
        0 <= i < j < nodes.len() ==> (#[trigger] nodes[i]).id != (#[trigger] nodes[j]).id
    &&& forall|i: int| 0 <= i < nodes.len() ==> !skipped(boundary, #[trigger] nodes[i])
    &&& forall|i: int| 0 <= i < nodes.len() ==> #[trigger] derived(store, follow, starts, nodes, i)
}

/// Whether `nodes` is the closure of `starts`: made of starting points and
/// successors only, and holding every starting point and every successor of
/// each of its nodes, but for those that the walk stops before.
pub open spec fn is_closure(
    store: Seq<(Seq<u8>, Seq<u8>)>,
    boundary: Seq<Seq<u8>>,
    follow: Follow,
    starts: Seq<NodeView>,
    nodes: Seq<NodeView>,
) -> bool {
    &&& well_derived(store, boundary, follow, starts, nodes)
    &&& covered(nodes, boundary, starts)
    &&& forall|i: int|
        0 <= i < nodes.len() ==> #[trigger] expanded(store, boundary, follow, nodes, i)
}

/// How many of `flags` are not set.
pub open spec fn count_unset(flags: Seq<bool>) -> nat
    decreases flags.len(),
{
    if flags.len() == 0 {
        0
    } else {
        count_unset(flags.drop_last()) + if flags.last() {
            0nat
        } else {
            1nat
        }
    }
}

/// Setting a flag that was not set leaves one fewer unset.
proof fn lemma_set_flag(flags: Seq<bool>, p: int)
    requires
        0 <= p < flags.len(),
        !flags[p],
    ensures
        count_unset(flags.update(p, true)) + 1 == count_unset(flags),
    decreases flags.len(),
{
    let after = flags.update(p, true);
    if p == flags.len() - 1 {
        assert(after.drop_last() =~= flags.drop_last());
    } else {
        assert(after.drop_last() =~= flags.drop_last().update(p, true));
        lemma_set_flag(flags.drop_last(), p);
    }
}

proof fn lemma_has_id_push(nodes: Seq<NodeView>, n: NodeView, id: Seq<u8>)
    ensures
        has_id(nodes, id) ==> has_id(nodes.push(n), id),
        has_id(nodes.push(n), n.id),
{
    if has_id(nodes, id) {
        let j = choose|j: int| 0 <= j < nodes.len() && #[trigger] nodes[j].id == id;
        assert(nodes.push(n)[j].id == id);
    }
    assert(nodes.push(n)[nodes.len() as int].id == n.id);
}

/// Whether `nodes` holds a node with the given id.
fn contains_id(nodes: &Vec<Node>, id: &[u8]) -> (r: bool)
    ensures
        r == has_id(nodes_view(nodes@), id@),
{
    let mut i: usize = 0;
    while i < nodes.len()
        invariant
            i <= nodes@.len(),
            forall|j: int| 0 <= j < i ==> (#[trigger] nodes_view(nodes@)[j]).id != id@,
        decreases nodes@.len() - i,
    {
        if bytes_eq(nodes[i].id.as_slice(), id) {
            assert(nodes_view(nodes@)[i as int].id == id@);
            return true;
        }
        i = i + 1;
    }
    false
}

/// Whether the walk stops before a node with this id and role.
fn is_skipped(boundary: &Vec<Vec<u8>>, id: &[u8], role: Role) -> (r: bool)
    ensures
        r == skipped(seqs(boundary@), NodeView { id: id@, role }),
{
    proof {
        reveal_strlit("None");
    }
    if id.len() == 0 || bytes_eq(id, bytes_of("None").as_slice()) {
        return true;
    }
    match role {
        Role::History => list_contains(boundary, id),
        _ => false,
    }
}

/// Where the walk goes from a node.
fn expand(store: &ObjectStore, node: &Node, follow: Follow) -> (r: Result<Vec<Node>, GitrError>)
    ensures
        match r {
            Ok(targets) => successors(store@, node@, follow) == Ok::<Seq<NodeView>, GitrError>(
                nodes_view(targets@),
            ),
            Err(e) => successors(store@, node@, follow) == Err::<Seq<NodeView>, GitrError>(e),
        },
{
    let mut out: Vec<Node> = Vec::new();
    match node.role {
        Role::Blob => {
            assert(nodes_view(out@) =~= Seq::<NodeView>::empty());
            Ok(out)
        },
        Role::Tree => match store.get(node.id.as_slice()) {
            Err(e) => Err(e),
            Ok(GitObject::Tree(tree)) => {
                let mut i: usize = 0;
                while i < tree.len()
                    invariant
                        i <= tree@.len(),
                        out@.len() == i,
                        forall|j: int|
                            0 <= j < i ==> (#[trigger] out@[j])@ == entry_nodes(tree@)[j],
                    decreases tree@.len() - i,
                {
                    let (is_tree, _name, id) = tree.get_entry(i);
                    out.push(
                        Node {
                            id,
                            role: if is_tree {
                                Role::Tree
                            } else {
                                Role::Blob
                            },
                        },
                    );
                    i = i + 1;
                }
                assert(nodes_view(out@) =~= entry_nodes(tree@));
                Ok(out)
            },
            Ok(_) => Err(GitrError::MalformedObject),
        },
        Role::History => match store.get(node.id.as_slice()) {
            Err(e) => Err(e),
            Ok(GitObject::Commit(commit)) => {
                if follow.history {
                    let parents = commit.get_parent_ids();
                    let mut i: usize = 0;
                    while i < parents.len()
                        invariant
                            i <= parents@.len(),
                            out@.len() == i,
                            forall|j: int|
                                0 <= j < i ==> (#[trigger] out@[j])@ == parent_nodes(
                                    seqs(parents@),
                                )[j],
                        decreases parents@.len() - i,
                    {
                        out.push(Node { id: parents[i].clone(), role: Role::History });
                        i = i + 1;
                    }
                    assert(nodes_view(out@) =~= parent_nodes(commit@.parents));
                } else {
                    assert(nodes_view(out@) =~= Seq::<NodeView>::empty());
                }
                let ghost first = nodes_view(out@);
                if follow.content {
                    out.push(Node { id: commit.get_tree(), role: Role::Tree });
                    assert(nodes_view(out@) =~= first + seq![
                        NodeView { id: commit@.tree, role: Role::Tree },
                    ]);
                } else {
                    assert(nodes_view(out@) =~= first + Seq::<NodeView>::empty());
                }
                Ok(out)
            },
            Ok(GitObject::Tag(tag)) => {
                out.push(Node { id: tag.get_commit_hash(), role: Role::History });
                assert(nodes_view(out@) =~= seq![
                    NodeView { id: tag@.target, role: Role::History },
                ]);
                Ok(out)
            },
            Ok(_) => Err(GitrError::InvalidCommitGraph),
        },
    }
}

/// Whether `b` is `a` with nodes added at the end.
pub open spec fn extends(a: Seq<NodeView>, b: Seq<NodeView>) -> bool {
    a.len() <= b.len() && forall|i: int| 0 <= i < a.len() ==> #[trigger] b[i] == a[i]
}

proof fn lemma_covered_extends(
    a: Seq<NodeView>,
    b: Seq<NodeView>,
    boundary: Seq<Seq<u8>>,
    targets: Seq<NodeView>,
)
    requires
        extends(a, b),
        covered(a, boundary, targets),
    ensures
        covered(b, boundary, targets),
{
    assert forall|k: int| 0 <= k < targets.len() implies skipped(boundary, #[trigger] targets[k])
        || has_id(b, targets[k].id) by {
        if has_id(a, targets[k].id) {
            let j = choose|j: int| 0 <= j < a.len() && #[trigger] a[j].id == targets[k].id;
            assert(b[j].id == targets[k].id);
        }
    }
}

proof fn lemma_derived_push(
    store: Seq<(Seq<u8>, Seq<u8>)>,
    follow: Follow,
    starts: Seq<NodeView>,
    nodes: Seq<NodeView>,
    n: NodeView,
    i: int,
)
    requires
        0 <= i < nodes.len(),
        derived(store, follow, starts, nodes, i),
    ensures
        derived(store, follow, starts, nodes.push(n), i),
{
    let more = nodes.push(n);
    assert(more[i] == nodes[i]);
    if !starts.contains(nodes[i]) {
        let j = choose|j: int|
            0 <= j < i && is_successor(store, follow, #[trigger] nodes[j], nodes[i]);
        assert(more[j] == nodes[j]);
    }
}

/// Adds to `nodes` each of `targets` that the walk does not stop before and
/// that is not there yet. The targets are the starting points (`from` is
/// negative) or the successors of node `from`.
fn add_targets(
    nodes: &mut Vec<Node>,
    targets: &Vec<Node>,
    boundary: &Vec<Vec<u8>>,
    Ghost(store): Ghost<Seq<(Seq<u8>, Seq<u8>)>>,
    Ghost(follow): Ghost<Follow>,
    Ghost(starts): Ghost<Seq<NodeView>>,
    Ghost(from): Ghost<int>,
)
    requires
        well_derived(store, seqs(boundary@), follow, starts, nodes_view(old(nodes)@)),
        from < old(nodes)@.len(),
        from < 0 ==> nodes_view(targets@) == starts,
        from >= 0 ==> successors(store, nodes_view(old(nodes)@)[from], follow) == Ok::<
            Seq<NodeView>,
            GitrError,
        >(nodes_view(targets@)),
    ensures
        well_derived(store, seqs(boundary@), follow, starts, nodes_view(final(nodes)@)),
        extends(nodes_view(old(nodes)@), nodes_view(final(nodes)@)),
        covered(nodes_view(final(nodes)@), seqs(boundary@), nodes_view(targets@)),
        targets@.len() == 0 ==> final(nodes)@.len() == old(nodes)@.len(),
{
    let ghost tv = nodes_view(targets@);
    let ghost bv = seqs(boundary@);
    let mut k: usize = 0;
    while k < targets.len()
        invariant
            k <= targets@.len(),
            tv == nodes_view(targets@),
            bv == seqs(boundary@),
            from < old(nodes)@.len(),
            from < 0 ==> tv == starts,
            from >= 0 ==> successors(store, nodes_view(old(nodes)@)[from], follow) == Ok::<
                Seq<NodeView>,
                GitrError,
            >(tv),
            well_derived(store, bv, follow, starts, nodes_view(nodes@)),
            extends(nodes_view(old(nodes)@), nodes_view(nodes@)),
            forall|j: int| 0 <= j < k ==> skipped(bv, #[trigger] tv[j]) || has_id(
                nodes_view(nodes@),
                tv[j].id,
            ),
            targets@.len() == 0 ==> nodes@.len() == old(nodes)@.len(),
        decreases targets@.len() - k,
    {
        let id = targets[k].id.as_slice();
        let role = targets[k].role;
        assert(tv[k as int] == NodeView { id: id@, role });
        if !is_skipped(boundary, id, role) && !contains_id(nodes, id) {
            let ghost before = nodes_view(nodes@);
            let n = Node { id: targets[k].id.clone(), role };
            nodes.push(n);
            proof {
                let after = nodes_view(nodes@);
                let nv = tv[k as int];
                assert(after =~= before.push(nv));
                assert forall|i: int| 0 <= i < after.len() implies #[trigger] derived(
                    store,
                    follow,
                    starts,
                    after,
                    i,
                ) by {
                    if i < before.len() {
                        assert(derived(store, follow, starts, before, i));
                        lemma_derived_push(store, follow, starts, before, nv, i);
                    } else {
                        if from < 0 {
                            assert(starts[k as int] == nv);
                        } else {
                            assert(after[from] == nodes_view(old(nodes)@)[from]);
                            assert(is_successor(store, follow, after[from], after[i]));
                        }
                    }
                }
                assert forall|i: int, j: int| 0 <= i < j < after.len() implies (
                #[trigger] after[i]).id != (#[trigger] after[j]).id by {
                    if j == before.len() {
                        assert(before[i].id != nv.id);
                    } else {
                        assert(before[i].id != before[j].id);
                    }
                }
                assert forall|i: int| 0 <= i < after.len() implies !skipped(
                    bv,
                    #[trigger] after[i],
                ) by {
                    if i < before.len() {
                        assert(!skipped(bv, before[i]));
                    }
                }
                assert forall|j: int| 0 <= j < k + 1 implies skipped(bv, #[trigger] tv[j])
                    || has_id(after, tv[j].id) by {
                    lemma_has_id_push(before, nv, tv[j].id);
                }
            }
        }
        k = k + 1;
    }
}

/// Walks the objects of `store` from `starts` on: the closure of `starts`, in
/// the order in which the walk reaches the objects. Fails with the error of
/// the first object reached from which the walk cannot go on.
pub fn walk(starts: &Vec<Node>, boundary: &Vec<Vec<u8>>, store: &ObjectStore, follow: Follow) -> (r:
    Result<Vec<Node>, GitrError>)
    ensures
        match r {
            Ok(nodes) => is_closure(
                store@,
                seqs(boundary@),
                follow,
                nodes_view(starts@),
                nodes_view(nodes@),
            ),
            Err(e) => exists|partial: Seq<NodeView>, i: int|
                #![trigger partial[i]]
                well_derived(store@, seqs(boundary@), follow, nodes_view(starts@), partial) && 0
                    <= i < partial.len() && successors(store@, partial[i], follow) == Err::<
                    Seq<NodeView>,
                    GitrError,
                >(e),
        },
{
    let ghost sv = nodes_view(starts@);
    let ghost bv = seqs(boundary@);
    let mut nodes: Vec<Node> = Vec::new();
    add_targets(&mut nodes, starts, boundary, Ghost(store@), Ghost(follow), Ghost(sv), Ghost(-1));
    let mut flags: Vec<bool> = Vec::new();
    let mut f: usize = 0;
    while f < store.objects.len()
        invariant
            f <= store.objects@.len(),
            flags@.len() == f,
            forall|p: int| 0 <= p < f ==> !#[trigger] flags@[p],
        decreases store.objects@.len() - f,
    {
        flags.push(false);
        f = f + 1;
    }
    let mut next: usize = 0;
    while next < nodes.len()
        invariant
            next <= nodes@.len(),
            sv == nodes_view(starts@),
            bv == seqs(boundary@),
            flags@.len() == store@.len(),
            well_derived(store@, bv, follow, sv, nodes_view(nodes@)),
            covered(nodes_view(nodes@), bv, sv),
            forall|i: int|
                0 <= i < next ==> #[trigger] expanded(store@, bv, follow, nodes_view(nodes@), i),
            forall|p: int|
                0 <= p < flags@.len() && #[trigger] flags@[p] ==> exists|i: int|
                    0 <= i < next && (#[trigger] nodes_view(nodes@)[i]).id == store@[p].0,
        decreases count_unset(flags@), nodes@.len() - next,
    {
        let ghost before = nodes_view(nodes@);
        let targets = match expand(store, &nodes[next], follow) {
            Ok(t) => t,
            Err(e) => {
                assert(successors(store@, before[next as int], follow) == Err::<
                    Seq<NodeView>,
                    GitrError,
                >(e));
                return Err(e);
            },
        };
        let ghost old_flags = flags@;
        match nodes[next].role {
            Role::Blob => {
                assert(nodes_view(targets@).len() == 0);
            },
            _ => {
                match store.position(nodes[next].id.as_slice()) {
                    Some(p) => {
                        proof {
                            let pi = p as int;
                            if flags@[pi] {
                                let i = choose|i: int|
                                    0 <= i < next && (#[trigger] before[i]).id == store@[pi].0;
                                assert(before[i].id != before[next as int].id);
                            }
                            lemma_set_flag(flags@, pi);
                        }
                        flags[p] = true;
                        assert(flags@ =~= old_flags.update(p as int, true));
                    },
                    None => {
                        assert(stored_object(store@, before[next as int].id) is Err);
                        assert(false);
                    },
                }
            },
        }
        add_targets(
            &mut nodes,
            &targets,
            boundary,
            Ghost(store@),
            Ghost(follow),
            Ghost(sv),
            Ghost(next as int),
        );
        proof {
            let after = nodes_view(nodes@);
            lemma_covered_extends(before, after, bv, sv);
            assert forall|i: int| 0 <= i < next + 1 implies #[trigger] expanded(
                store@,
                bv,
                follow,
                after,
                i,
            ) by {
                assert(after[i] == before[i]);
                if i < next {
                    assert(expanded(store@, bv, follow, before, i));
                    lemma_covered_extends(
                        before,
                        after,
                        bv,
                        successors(store@, before[i], follow).unwrap(),
                    );
                }
            }
            assert forall|p: int| 0 <= p < flags@.len() && #[trigger] flags@[p] implies exists|
                i: int,
            |
                0 <= i < next + 1 && (#[trigger] after[i]).id == store@[p].0 by {
                if old_flags[p] {
                    let i = choose|i: int|
                        0 <= i < next && (#[trigger] before[i]).id == store@[p].0;
                    assert(after[i] == before[i]);
                } else {
                    assert(after[next as int] == before[next as int]);
                }
            }
        }
        next = next + 1;
    }
    Ok(nodes)
}

/// Whether two node sequences give the same role to each id they share.
pub open spec fn same_roles(a: Seq<NodeView>, b: Seq<NodeView>) -> bool {
    forall|x: int, y: int|
        0 <= x < a.len() && 0 <= y < b.len() && (#[trigger] a[x]).id == (#[trigger] b[y]).id
            ==> a[x].role == b[y].role
}

/// Every node that has a reason to be reached is in any closure of the
/// same starting points that gives the ids the same roles.
pub proof fn lemma_closure_subset(
    store: Seq<(Seq<u8>, Seq<u8>)>,
    boundary: Seq<Seq<u8>>,
    follow: Follow,
    starts: Seq<NodeView>,
    a: Seq<NodeView>,
    b: Seq<NodeView>,
    i: int,
)
    requires
        well_derived(store, boundary, follow, starts, a),
        is_closure(store, boundary, follow, starts, b),
        same_roles(a, b),
        0 <= i < a.len(),
    ensures
        has_id(b, a[i].id),
    decreases i,
{
    assert(derived(store, follow, starts, a, i));
    assert(!skipped(boundary, a[i]));
    if starts.contains(a[i]) {
        let k = choose|k: int| 0 <= k < starts.len() && starts[k] == a[i];
        assert(skipped(boundary, starts[k]) || has_id(b, starts[k].id));
    } else {
        let j = choose|j: int| 0 <= j < i && is_successor(store, follow, #[trigger] a[j], a[i]);
        lemma_closure_subset(store, boundary, follow, starts, a, b, j);
        let m = choose|m: int| 0 <= m < b.len() && #[trigger] b[m].id == a[j].id;
        assert(a[j].role == b[m].role);
        assert(b[m] == a[j]);
        assert(expanded(store, boundary, follow, b, m));
        let targets = successors(store, a[j], follow).unwrap();
        let k = choose|k: int| 0 <= k < targets.len() && targets[k] == a[i];
        assert(skipped(boundary, targets[k]) || has_id(b, targets[k].id));
    }
}

/// The closure is unique: two closures of the same starting points that
/// give the ids the same roles hold the same ids.
pub proof fn lemma_closure_unique(
    store: Seq<(Seq<u8>, Seq<u8>)>,
    boundary: Seq<Seq<u8>>,
    follow: Follow,
    starts: Seq<NodeView>,
    a: Seq<NodeView>,
    b: Seq<NodeView>,
)
    requires
        is_closure(store, boundary, follow, starts, a),
        is_closure(store, boundary, follow, starts, b),
        same_roles(a, b),
    ensures
        forall|id: Seq<u8>| has_id(a, id) <==> has_id(b, id),
{
    assert forall|id: Seq<u8>| has_id(a, id) <==> has_id(b, id) by {
        if has_id(a, id) {
            let i = choose|i: int| 0 <= i < a.len() && #[trigger] a[i].id == id;
            lemma_closure_subset(store, boundary, follow, starts, a, b, i);
        }
        if has_id(b, id) {
            let i = choose|i: int| 0 <= i < b.len() && #[trigger] b[i].id == id;
            assert(same_roles(b, a)) by {
                assert forall|x: int, y: int|
                    0 <= x < b.len() && 0 <= y < a.len() && (#[trigger] b[x]).id == (
                    #[trigger] a[y]).id implies b[x].role == a[y].role by {
                    assert(a[y].role == b[x].role);
                }
            }
            lemma_closure_subset(store, boundary, follow, starts, b, a, i);
        }
    }
}

/// The starting points that a list of ids stands for: commits or tags.
pub open spec fn history_nodes(ids: Seq<Seq<u8>>) -> Seq<NodeView> {
    parent_nodes(ids)
}

/// Following history only.
pub open spec fn history_only() -> Follow {
    Follow { history: true, content: false }
}

/// Following content only.
pub open spec fn content_only() -> Follow {
    Follow { history: false, content: true }
}

/// Following history and content.
pub open spec fn everything() -> Follow {
    Follow { history: true, content: true }
}

/// A walk over history only, from commits or tags, reaches commits and tags only.
pub proof fn lemma_history_roles(
    store: Seq<(Seq<u8>, Seq<u8>)>,
    boundary: Seq<Seq<u8>>,
    ids: Seq<Seq<u8>>,
    nodes: Seq<NodeView>,
    i: int,
)
    requires
        well_derived(store, boundary, history_only(), history_nodes(ids), nodes),
        0 <= i < nodes.len(),
    ensures
        nodes[i].role == Role::History,
    decreases i,
{
    let starts = history_nodes(ids);
    assert(derived(store, history_only(), starts, nodes, i));
    if starts.contains(nodes[i]) {
        let k = choose|k: int| 0 <= k < starts.len() && starts[k] == nodes[i];
    } else {
        let j = choose|j: int|
            0 <= j < i && is_successor(store, history_only(), #[trigger] nodes[j], nodes[i]);
        lemma_history_roles(store, boundary, ids, nodes, j);
        let targets = successors(store, nodes[j], history_only()).unwrap();
        let k = choose|k: int| 0 <= k < targets.len() && targets[k] == nodes[i];
    }
}

/// The ids of a sequence of nodes.
pub open spec fn ids_of(nodes: Seq<NodeView>) -> Seq<Seq<u8>> {
    Seq::new(nodes.len(), |i: int| nodes[i].id)
}

/// The starting points for a list of ids.
fn start_nodes(ids: &Vec<Vec<u8>>) -> (r: Vec<Node>)
    ensures
        nodes_view(r@) == history_nodes(seqs(ids@)),
{
    let mut out: Vec<Node> = Vec::new();
    let mut i: usize = 0;
    while i < ids.len()
        invariant
            i <= ids@.len(),
            out@.len() == i,
            forall|j: int| 0 <= j < i ==> (#[trigger] out@[j])@ == history_nodes(seqs(ids@))[j],
        decreases ids@.len() - i,
    {
        out.push(Node { id: ids[i].clone(), role: Role::History });
        i = i + 1;
    }
    assert(nodes_view(out@) =~= history_nodes(seqs(ids@)));
    out
}

/// The ids of a list of nodes.
fn node_ids(nodes: &Vec<Node>) -> (r: Vec<Vec<u8>>)
    ensures
        seqs(r@) == ids_of(nodes_view(nodes@)),
{
    let mut out: Vec<Vec<u8>> = Vec::new();
    let mut i: usize = 0;
    while i < nodes.len()
        invariant
            i <= nodes@.len(),
            out@.len() == i,
            forall|j: int| 0 <= j < i ==> (#[trigger] out@[j])@ == nodes@[j].id@,
        decreases nodes@.len() - i,
    {
        out.push(nodes[i].id.clone());
        i = i + 1;
    }
    assert(seqs(out@) =~= ids_of(nodes_view(nodes@)));
    out
}

/// What a walk returns: the ids of a closure of the starting points, in the
/// order of the walk, or the error of an object that the walk reached and
/// could not go on from.
pub open spec fn walk_result(
    store: Seq<(Seq<u8>, Seq<u8>)>,
    boundary: Seq<Seq<u8>>,
    follow: Follow,
    starts: Seq<NodeView>,
    r: Result<Seq<Seq<u8>>, GitrError>,
) -> bool {
    match r {
        Ok(ids) => exists|nodes: Seq<NodeView>|
            #[trigger] is_closure(store, boundary, follow, starts, nodes) && ids == ids_of(nodes),
        Err(e) => exists|partial: Seq<NodeView>, i: int|
            #![trigger partial[i]]
            well_derived(store, boundary, follow, starts, partial) && 0 <= i < partial.len()
                && successors(store, partial[i], follow) == Err::<Seq<NodeView>, GitrError>(e),
    }
}

/// The closure of `starts`: the commits reached from them over parent
/// edges, stopping before those in `boundary` and before the "no parent"
/// marker, and every tree and blob that these commits hold. A tag among the
/// starting points is followed to its target.
pub fn closure(starts: &Vec<Vec<u8>>, boundary: &Vec<Vec<u8>>, store: &ObjectStore) -> (r: Result<
    Vec<Vec<u8>>,
    GitrError,
>)
    ensures
        walk_result(
            store@,
            seqs(boundary@),
            everything(),
            history_nodes(seqs(starts@)),
            match r {
                Ok(ids) => Ok(seqs(ids@)),
                Err(e) => Err(e),
            },
        ),
{
    let nodes = start_nodes(starts);
    match walk(&nodes, boundary, store, Follow { history: true, content: true }) {
        Ok(found) => {
            let ids = node_ids(&found);
            assert(ids_of(nodes_view(found@)) == seqs(ids@));
            Ok(ids)
        },
        Err(e) => Err(e),
    }
}

/// Whether `ancestor` is reached from `child` over history: whether the
/// closure of `child` over history holds it.
pub open spec fn reaches(store: Seq<(Seq<u8>, Seq<u8>)>, child: Seq<u8>, ancestor: Seq<u8>) -> bool {
    exists|nodes: Seq<NodeView>|
        #[trigger] is_closure(
            store,
            Seq::empty(),
            history_only(),
            history_nodes(seq![child]),
            nodes,
        ) && has_id(nodes, ancestor)
}

/// Two walks over history from the same commits or tags give the ids the same roles.
proof fn lemma_history_same_roles(
    store: Seq<(Seq<u8>, Seq<u8>)>,
    boundary: Seq<Seq<u8>>,
    ids: Seq<Seq<u8>>,
    a: Seq<NodeView>,
    b: Seq<NodeView>,
)
    requires
        well_derived(store, boundary, history_only(), history_nodes(ids), a),
        well_derived(store, boundary, history_only(), history_nodes(ids), b),
    ensures
        same_roles(a, b),
{
    assert forall|x: int, y: int|
        0 <= x < a.len() && 0 <= y < b.len() && (#[trigger] a[x]).id == (#[trigger] b[y]).id implies a[x].role
        == b[y].role by {
        lemma_history_roles(store, boundary, ids, a, x);
        lemma_history_roles(store, boundary, ids, b, y);
    }
}

impl Commit {
    /// The commits and tags reached from `commits_ids` over history,
    /// stopping before those in `receivers_commits` and before the "no
    /// parent" marker, in the order of the walk.
    pub fn get_parents(
        commits_ids: Vec<Vec<u8>>,
        receivers_commits: Vec<Vec<u8>>,
        store: &ObjectStore,
    ) -> (r: Result<Vec<Vec<u8>>, GitrError>)
        ensures
            walk_result(
                store@,
                seqs(receivers_commits@),
                history_only(),
                history_nodes(seqs(commits_ids@)),
                match r {
                    Ok(ids) => Ok(seqs(ids@)),
                    Err(e) => Err(e),
                },
            ),
    {
        let nodes = start_nodes(&commits_ids);
        match walk(&nodes, &receivers_commits, store, Follow { history: true, content: false }) {
            Ok(found) => {
                let ids = node_ids(&found);
                assert(ids_of(nodes_view(found@)) == seqs(ids@));
                Ok(ids)
            },
            Err(e) => Err(e),
        }
    }

    /// The objects to send for the given commits or tags: the commits
    /// themselves, their trees, and all that the trees hold, but for what
    /// is in `client_objects`; each id once.
    pub fn get_objects_from_commits(
        commits_id: Vec<Vec<u8>>,
        client_objects: Vec<Vec<u8>>,
        store: &ObjectStore,
    ) -> (r: Result<Vec<Vec<u8>>, GitrError>)
        ensures
            match r {
                Ok(ids) => exists|nodes: Seq<NodeView>|
                    {
                        &&& #[trigger] is_closure(
                            store@,
                            Seq::empty(),
                            content_only(),
                            history_nodes(seqs(commits_id@)),
                            nodes,
                        )
                        &&& forall|id: Seq<u8>|
                            seqs(ids@).contains(id) <==> has_id(nodes, id) && !seqs(
                                client_objects@,
                            ).contains(id)
                        &&& forall|i: int, j: int|
                            0 <= i < j < ids@.len() ==> (#[trigger] ids@[i])@ != (
                            #[trigger] ids@[j])@
                    },
                Err(e) => walk_result(
                    store@,
                    Seq::empty(),
                    content_only(),
                    history_nodes(seqs(commits_id@)),
                    Err(e),
                ),
            },
    {
        let nodes = start_nodes(&commits_id);
        let none: Vec<Vec<u8>> = Vec::new();
        assert(seqs(none@) =~= Seq::<Seq<u8>>::empty());
        let found = match walk(&nodes, &none, store, Follow { history: false, content: true }) {
            Ok(found) => found,
            Err(e) => {
                return Err(e);
            },
        };
        let ghost fv = nodes_view(found@);
        let mut out: Vec<Vec<u8>> = Vec::new();
        let mut i: usize = 0;
        while i < found.len()
            invariant
                i <= found@.len(),
                fv == nodes_view(found@),
                forall|a: int, b: int| 0 <= a < b < fv.len() ==> (#[trigger] fv[a]).id != (
                #[trigger] fv[b]).id,
                forall|id: Seq<u8>|
                    seqs(out@).contains(id) <==> (exists|k: int|
                        0 <= k < i && (#[trigger] fv[k]).id == id) && !seqs(
                        client_objects@,
                    ).contains(id),
                forall|a: int, b: int|
                    0 <= a < b < out@.len() ==> (#[trigger] out@[a])@ != (#[trigger] out@[b])@,
            decreases found@.len() - i,
        {
            let ghost before = seqs(out@);
            if !list_contains(&client_objects, found[i].id.as_slice()) {
                out.push(found[i].id.clone());
                proof {
                    let id_i = fv[i as int].id;
                    assert(seqs(out@) =~= before.push(id_i));
                    assert forall|a: int, b: int| 0 <= a < b < out@.len() implies (
                    #[trigger] out@[a])@ != (#[trigger] out@[b])@ by {
                        if b == out@.len() - 1 {
                            assert(before[a] == out@[a]@);
                            if out@[a]@ == id_i {
                                assert(before.contains(id_i));
                                let k = choose|k: int| 0 <= k < i && (#[trigger] fv[k]).id == id_i;
                                assert(fv[k].id != fv[i as int].id);
                            }
                        }
                    }
                    assert forall|id: Seq<u8>|
                        seqs(out@).contains(id) <==> (exists|k: int|
                            0 <= k < i + 1 && (#[trigger] fv[k]).id == id) && !seqs(
                            client_objects@,
                        ).contains(id) by {
                        if seqs(out@).contains(id) {
                            let x = choose|x: int| 0 <= x < seqs(out@).len() && seqs(out@)[x] == id;
                            if x < before.len() {
                                assert(before[x] == id);
                                assert(before.contains(id));
                                let k = choose|k: int| 0 <= k < i && (#[trigger] fv[k]).id == id;
                                assert(fv[k].id == id);
                            } else {
                                assert(fv[i as int].id == id);
                            }
                        }
                        if (exists|k: int| 0 <= k < i + 1 && (#[trigger] fv[k]).id == id) && !seqs(
                            client_objects@,
                        ).contains(id) {
                            let k = choose|k: int| 0 <= k < i + 1 && (#[trigger] fv[k]).id == id;
                            if k < i {
                                assert(before.contains(id));
                                let x = choose|x: int| 0 <= x < before.len() && before[x] == id;
                                assert(seqs(out@)[x] == id);
                            } else {
                                assert(seqs(out@)[before.len() as int] == id);
                            }
                        }
                    }
                }
            } else {
                proof {
                    assert forall|id: Seq<u8>|
                        seqs(out@).contains(id) <==> (exists|k: int|
                            0 <= k < i + 1 && (#[trigger] fv[k]).id == id) && !seqs(
                            client_objects@,
                        ).contains(id) by {
                        if (exists|k: int| 0 <= k < i + 1 && (#[trigger] fv[k]).id == id) && !seqs(
                            client_objects@,
                        ).contains(id) {
                            let k = choose|k: int| 0 <= k < i + 1 && (#[trigger] fv[k]).id == id;
                            assert(k < i);
                        }
                        if seqs(out@).contains(id) {
                            let k = choose|k: int| 0 <= k < i && (#[trigger] fv[k]).id == id;
                            assert(fv[k].id == id);
                        }
                    }
                }
            }
            i = i + 1;
        }
        proof {
            assert(is_closure(
                store@,
                Seq::empty(),
                content_only(),
                history_nodes(seqs(commits_id@)),
                fv,
            ));
            assert forall|id: Seq<u8>|
                seqs(out@).contains(id) <==> has_id(fv, id) && !seqs(client_objects@).contains(
                    id,
                ) by {
                if seqs(out@).contains(id) {
                    let k = choose|k: int| 0 <= k < i && (#[trigger] fv[k]).id == id;
                    assert(fv[k].id == id);
                }
                if has_id(fv, id) {
                    let j = choose|j: int| 0 <= j < fv.len() && #[trigger] fv[j].id == id;
                    assert(fv[j].id == id);
                }
            }
        }
        Ok(out)
    }
}

impl Tree {
    /// Adds to `object_ids` all that the tree `tree_id` holds, directly or
    /// in a tree inside it, but not the tree itself; what is there already
    /// is not added again.
    pub fn get_all_tree_objects(tree_id: Vec<u8>, store: &ObjectStore, object_ids: &mut Vec<Vec<u8>>) -> (r:
        Result<(), GitrError>)
        ensures
            match r {
                Ok(_) => exists|nodes: Seq<NodeView>|
                    {
                        &&& #[trigger] is_closure(
                            store@,
                            Seq::empty(),
                            content_only(),
                            seq![NodeView { id: tree_id@, role: Role::Tree }],
                            nodes,
                        )
                        &&& forall|id: Seq<u8>|
                            seqs(final(object_ids)@).contains(id) <==> seqs(
                                old(object_ids)@,
                            ).contains(id) || (has_id(nodes, id) && id != tree_id@)
                    },
                Err(e) => final(object_ids)@ == old(object_ids)@ && walk_result(
                    store@,
                    Seq::empty(),
                    content_only(),
                    seq![NodeView { id: tree_id@, role: Role::Tree }],
                    Err(e),
                ),
            },
    {
        let mut starts: Vec<Node> = Vec::new();
        starts.push(Node { id: tree_id.clone(), role: Role::Tree });
        assert(nodes_view(starts@) =~= seq![NodeView { id: tree_id@, role: Role::Tree }]);
        let none: Vec<Vec<u8>> = Vec::new();
        assert(seqs(none@) =~= Seq::<Seq<u8>>::empty());
        let found = match walk(&starts, &none, store, Follow { history: false, content: true }) {
            Ok(found) => found,
            Err(e) => {
                return Err(e);
            },
        };
        let ghost fv = nodes_view(found@);
        let ghost start_ids = seqs(object_ids@);
        let mut i: usize = 0;
        proof {
            assert(!has_id(fv.subrange(0, 0), tree_id@));
        }
        while i < found.len()
            invariant
                i <= found@.len(),
                fv == nodes_view(found@),
                forall|id: Seq<u8>|
                    seqs(object_ids@).contains(id) <==> start_ids.contains(id) || (has_id(
                        fv.subrange(0, i as int),
                        id,
                    ) && id != tree_id@),
            decreases found@.len() - i,
        {
            let ghost before = seqs(object_ids@);
            let id = found[i].id.as_slice();
            let add = !bytes_eq(id, tree_id.as_slice()) && !list_contains(object_ids, id);
            if add {
                object_ids.push(found[i].id.clone());
                assert(seqs(object_ids@) =~= before.push(id@));
            }
            proof {
                let now = seqs(object_ids@);
                assert forall|x: Seq<u8>|
                    now.contains(x) <==> start_ids.contains(x) || (has_id(
                        fv.subrange(0, i as int + 1),
                        x,
                    ) && x != tree_id@) by {
                    lemma_has_id_prefix(fv, i as int, x);
                    assert(fv[i as int].id == id@);
                    assert(before.contains(x) <==> start_ids.contains(x) || (has_id(
                        fv.subrange(0, i as int),
                        x,
                    ) && x != tree_id@));
                    if now.contains(x) {
                        let p = choose|p: int| 0 <= p < now.len() && now[p] == x;
                        if p < before.len() {
                            assert(before[p] == x);
                            assert(before.contains(x));
                        }
                    }
                    if before.contains(x) {
                        let p = choose|p: int| 0 <= p < before.len() && before[p] == x;
                        assert(now[p] == x);
                    }
                    if add {
                        assert(now[before.len() as int] == id@);
                    }
                }
            }
            i = i + 1;
        }
        proof {
            assert(fv.subrange(0, i as int) =~= fv);
            assert(is_closure(
                store@,
                Seq::empty(),
                content_only(),
                seq![NodeView { id: tree_id@, role: Role::Tree }],
                fv,
            ));
        }
        Ok(())
    }
}

/// A node is among the first `i + 1` when it is among the first `i` or is node `i`.
proof fn lemma_has_id_prefix(nodes: Seq<NodeView>, i: int, id: Seq<u8>)
    requires
        0 <= i < nodes.len(),
    ensures
        has_id(nodes.subrange(0, i + 1), id) <==> has_id(nodes.subrange(0, i), id) || nodes[i].id
            == id,
{
    let a = nodes.subrange(0, i);
    let b = nodes.subrange(0, i + 1);
    if has_id(b, id) {
        let j = choose|j: int| 0 <= j < b.len() && #[trigger] b[j].id == id;
        if j < i {
            assert(a[j].id == id);
        }
    }
    if has_id(a, id) {
        let j = choose|j: int| 0 <= j < a.len() && #[trigger] a[j].id == id;
        assert(b[j].id == id);
    }
    if nodes[i].id == id {
        assert(b[i].id == id);
    }
}

/// Whether `parent` is `child` or is reached from it over history. A walk
/// that fails reaches nothing.
pub fn is_parent(child: Vec<u8>, parent: Vec<u8>, store: &ObjectStore) -> (r: bool)
    ensures
        r == reaches(store@, child@, parent@),
{
    let mut starts: Vec<Vec<u8>> = Vec::new();
    starts.push(child);
    assert(seqs(starts@) =~= seq![child@]);
    let ghost sv = history_nodes(seq![child@]);
    let ghost e = Seq::<Seq<u8>>::empty();
    let none: Vec<Vec<u8>> = Vec::new();
    assert(seqs(none@) =~= e);
    match Commit::get_parents(starts, none, store) {
        Ok(ids) => {
            let found = list_contains(&ids, parent.as_slice());
            proof {
                let nodes = choose|nodes: Seq<NodeView>|
                    #[trigger] is_closure(store@, e, history_only(), sv, nodes) && seqs(ids@)
                        == ids_of(nodes);
                if found {
                    let x = choose|x: int| 0 <= x < seqs(ids@).len() && seqs(ids@)[x] == parent@;
                    assert(nodes[x].id == parent@);
                }
                if reaches(store@, child@, parent@) {
                    let other = choose|other: Seq<NodeView>|
                        #[trigger] is_closure(store@, e, history_only(), sv, other) && has_id(
                            other,
                            parent@,
                        );
                    lemma_history_same_roles(store@, e, seq![child@], nodes, other);
                    lemma_closure_unique(store@, e, history_only(), sv, nodes, other);
                    assert(has_id(nodes, parent@));
                    let x = choose|x: int| 0 <= x < nodes.len() && #[trigger] nodes[x].id == parent@;
                    assert(seqs(ids@)[x] == parent@);
                }
            }
            found
        },
        Err(err) => {
            proof {
                if reaches(store@, child@, parent@) {
                    let other = choose|other: Seq<NodeView>|
                        #[trigger] is_closure(store@, e, history_only(), sv, other) && has_id(
                            other,
                            parent@,
                        );
                    let (partial, i) = choose|partial: Seq<NodeView>, i: int|
                        #![trigger partial[i]]
                        well_derived(store@, e, history_only(), sv, partial) && 0 <= i
                            < partial.len() && successors(store@, partial[i], history_only())
                            == Err::<Seq<NodeView>, GitrError>(err);
                    lemma_history_same_roles(store@, e, seq![child@], partial, other);
                    lemma_closure_subset(store@, e, history_only(), sv, partial, other, i);
                    let m = choose|m: int| 0 <= m < other.len() && #[trigger] other[m].id == partial[i].id;
                    assert(partial[i].role == other[m].role);
                    assert(other[m] == partial[i]);
                    assert(expanded(store@, e, history_only(), other, m));
                }
            }
            false
        },
    }
}

} // verus!
