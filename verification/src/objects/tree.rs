use crate::gitr_errors::GitrError;
use crate::sorting::distinct_indices;
use crate::objects::blob::TreeEntry;
use crate::objects::git_object::{
    canonical, canonical_bytes, hash_object, is_object_id, object_id, ObjectKind,
};
use crate::text::{
    ascii, bytes_eq, bytes_of, copy_range, find_byte, find_from, from_hex, hex_decode, hex_encode,
    lacks, lemma_find_from, lemma_find_unique, lemma_hex_decode_encode, lemma_hex_round_trip,
    push_all, to_hex,
};
use crate::codec::{compresses, flate2compress2, is_stream_of, zlib_stream};
use crate::file_manager::{holds, written, ObjectStore};
use vstd::prelude::*;

verus! {

/// One entry of a directory: its mode, its name, and the id of what it
/// points at.
#[derive(Debug)]
pub struct TreeItem {
    pub mode: Vec<u8>,
    pub name: Vec<u8>,
    pub id: Vec<u8>,
}

/// The mathematical value of a `TreeItem`.
pub struct TreeItemView {
    pub mode: Seq<u8>,
    pub name: Seq<u8>,
    pub id: Seq<u8>,
}

impl TreeItemView {
    /// Whether the entry points at a tree: whether its mode is that of a
    /// directory.
    pub open spec fn is_tree(self) -> bool {
        self.mode == mode_of(true)
    }
}

impl View for TreeItem {
    type V = TreeItemView;

    open spec fn view(&self) -> TreeItemView {
        TreeItemView { mode: self.mode@, name: self.name@, id: self.id@ }
    }
}

impl TreeItem {
    /// Whether the entry points at a tree.
    pub fn is_tree(&self) -> (r: bool)
        ensures
            r == self@.is_tree(),
    {
        proof {
            reveal_strlit("40000");
        }
        bytes_eq(self.mode.as_slice(), bytes_of("40000").as_slice())
    }
}

/// The values of a sequence of items.
pub open spec fn items_view(items: Seq<TreeItem>) -> Seq<TreeItemView> {
    Seq::new(items.len(), |i: int| items[i]@)
}

/// `a` comes before `b`, or is equal to it, in byte-wise dictionary order,
/// the two compared from index `i` on.
pub open spec fn lex_le_from(a: Seq<u8>, b: Seq<u8>, i: int) -> bool
    decreases a.len() - i,
{
    if i < 0 || i >= a.len() {
        true
    } else if i >= b.len() {
        false
    } else if a[i] != b[i] {
        a[i] < b[i]
    } else {
        lex_le_from(a, b, i + 1)
    }
}

/// Byte-wise dictionary order.
pub open spec fn lex_le(a: Seq<u8>, b: Seq<u8>) -> bool {
    lex_le_from(a, b, 0)
}

/// Of two names, one comes before the other or they are equal.
pub proof fn lemma_lex_total(a: Seq<u8>, b: Seq<u8>, i: int)
    requires
        0 <= i,
    ensures
        lex_le_from(a, b, i) || lex_le_from(b, a, i),
    decreases a.len() - i,
{
    if i < a.len() && i < b.len() && a[i] == b[i] {
        lemma_lex_total(a, b, i + 1);
    }
}

/// A name comes before itself or is equal to it.
pub proof fn lemma_lex_refl(a: Seq<u8>, i: int)
    requires
        0 <= i,
    ensures
        lex_le_from(a, a, i),
    decreases a.len() - i,
{
    if i < a.len() {
        lemma_lex_refl(a, i + 1);
    }
}

/// Two names of which each comes before the other or is equal to it are
/// equal from where they are compared.
pub proof fn lemma_lex_antisym(a: Seq<u8>, b: Seq<u8>, i: int)
    requires
        0 <= i <= a.len(),
        i <= b.len(),
        lex_le_from(a, b, i),
        lex_le_from(b, a, i),
    ensures
        a.len() == b.len(),
        forall|j: int| i <= j < a.len() ==> a[j] == b[j],
    decreases a.len() - i,
{
    if i < a.len() && i < b.len() {
        lemma_lex_antisym(a, b, i + 1);
    }
}

/// Byte-wise dictionary order goes on from one name over a second to a
/// third.
pub proof fn lemma_lex_trans(a: Seq<u8>, b: Seq<u8>, c: Seq<u8>, i: int)
    requires
        0 <= i,
        lex_le_from(a, b, i),
        lex_le_from(b, c, i),
    ensures
        lex_le_from(a, c, i),
    decreases a.len() - i,
{
    if i < a.len() && a[i] == b[i] && b[i] == c[i] {
        lemma_lex_trans(a, b, c, i + 1);
    }
}

/// Executable `lex_le`.
pub fn name_le(a: &[u8], b: &[u8]) -> (r: bool)
    ensures
        r == lex_le(a@, b@),
{
    let mut i: usize = 0;
    while i < a.len()
        invariant
            i <= a@.len(),
            lex_le(a@, b@) == lex_le_from(a@, b@, i as int),
        decreases a@.len() - i,
    {
        if i >= b.len() {
            return false;
        }
        if a[i] != b[i] {
            return a[i] < b[i];
        }
        i = i + 1;
    }
    true
}

/// Each item's name is at most the next one's.
pub open spec fn sorted_by_name(items: Seq<TreeItemView>) -> bool {
    forall|i: int| 0 <= i < items.len() - 1 ==> lex_le(#[trigger] items[i].name, items[i + 1].name)
}

/// An item that can be written down and read back: no space in its mode,
/// no NUL in its name, and a well-formed id.
pub open spec fn item_wf(e: TreeItemView) -> bool {
    lacks(e.mode, 32) && lacks(e.name, 0) && is_object_id(e.id)
}

/// A well-formed tree: well-formed items, sorted by name.
pub open spec fn tree_wf(items: Seq<TreeItemView>) -> bool {
    (forall|i: int| 0 <= i < items.len() ==> item_wf(#[trigger] items[i])) && sorted_by_name(items)
}

/// The mode that `Tree::new` writes for an entry: that of a directory for
/// a tree, and that of a plain file for a blob.
pub open spec fn mode_of(is_tree: bool) -> Seq<u8> {
    if is_tree {
        ascii("40000"@)
    } else {
        ascii("100644"@)
    }
}

/// One entry as it stands in a tree's payload: mode, space, name, NUL, and
/// the 20 bytes of the id.
pub open spec fn item_bytes(e: TreeItemView) -> Seq<u8> {
    e.mode + seq![32u8] + e.name + seq![0u8] + hex_decode(e.id)
}

/// The payload of a tree: its entries one after the other.
pub open spec fn tree_payload(items: Seq<TreeItemView>) -> Seq<u8>
    decreases items.len(),
{
    if items.len() == 0 {
        Seq::empty()
    } else {
        tree_payload(items.drop_last()) + item_bytes(items.last())
    }
}

/// Reads the entries that stand in `bytes` from `pos` on, each of the form
/// mode, space, name, NUL and the 20 bytes of an id; the mode is kept as it
/// is read. `None` when an entry is cut short.
pub open spec fn parse_items(bytes: Seq<u8>, pos: int) -> Option<Seq<TreeItemView>>
    decreases bytes.len() - pos,
{
    if pos < 0 || pos >= bytes.len() {
        Some(Seq::empty())
    } else {
        let sp = find_from(bytes, 32, pos);
        let nul = find_from(bytes, 0, sp + 1);
        if !(pos <= sp < bytes.len() && sp < nul < bytes.len() && nul + 21 <= bytes.len()) {
            None
        } else {
            let item = TreeItemView {
                mode: bytes.subrange(pos, sp),
                name: bytes.subrange(sp + 1, nul),
                id: hex_encode(bytes.subrange(nul + 1, nul + 21)),
            };
            match parse_items(bytes, nul + 21) {
                None => None,
                Some(rest) => Some(seq![item] + rest),
            }
        }
    }
}

/// Reads a tree's payload: its entries, if they are well-formed and sorted.
pub open spec fn parse_tree(bytes: Seq<u8>) -> Option<Seq<TreeItemView>> {
    match parse_items(bytes, 0) {
        None => None,
        Some(items) => if sorted_by_name(items) {
            Some(items)
        } else {
            None
        },
    }
}

/// The two modes are distinct and hold neither a space nor a NUL.
pub proof fn lemma_modes()
    ensures
        mode_of(true) != mode_of(false),
        lacks(mode_of(true), 32),
        lacks(mode_of(false), 32),
        lacks(mode_of(true), 0),
        lacks(mode_of(false), 0),
        mode_of(true).len() == 5,
        mode_of(false).len() == 6,
{
    reveal_strlit("40000");
    reveal_strlit("100644");
    assert(mode_of(true).len() == 5);
    assert(mode_of(false).len() == 6);
}

/// Appending an entry appends its bytes.
pub proof fn lemma_payload_push(items: Seq<TreeItemView>, e: TreeItemView)
    ensures
        tree_payload(items.push(e)) == tree_payload(items) + item_bytes(e),
{
    assert(items.push(e).drop_last() =~= items);
}

/// Prepending an entry prepends its bytes.
pub proof fn lemma_payload_cons(e: TreeItemView, items: Seq<TreeItemView>)
    ensures
        tree_payload(seq![e] + items) == item_bytes(e) + tree_payload(items),
    decreases items.len(),
{
    if items.len() == 0 {
        assert(seq![e] + items =~= seq![e]);
        assert(seq![e].drop_last() =~= Seq::<TreeItemView>::empty());
        assert(tree_payload(Seq::<TreeItemView>::empty()) =~= Seq::<u8>::empty());
        assert(seq![e].last() == e);
        assert(tree_payload(seq![e]) =~= item_bytes(e));
        assert(item_bytes(e) + tree_payload(items) =~= item_bytes(e));
    } else {
        lemma_payload_cons(e, items.drop_last());
        assert((seq![e] + items).drop_last() =~= seq![e] + items.drop_last());
        assert((seq![e] + items).last() == items.last());
        assert(tree_payload(seq![e] + items) =~= item_bytes(e) + tree_payload(items));
    }
}

/// What `parse_items` reads from `pos` on is well-formed, and its payload is
/// the bytes from `pos` on.
pub proof fn lemma_parse_items_sound(bytes: Seq<u8>, pos: int)
    requires
        0 <= pos <= bytes.len(),
        parse_items(bytes, pos) is Some,
    ensures
        tree_payload(parse_items(bytes, pos).unwrap()) == bytes.subrange(pos, bytes.len() as int),
        forall|i: int|
            0 <= i < parse_items(bytes, pos).unwrap().len() ==> item_wf(
                #[trigger] parse_items(bytes, pos).unwrap()[i],
            ),
    decreases bytes.len() - pos,
{
    if pos >= bytes.len() {
        assert(bytes.subrange(pos, bytes.len() as int) =~= Seq::<u8>::empty());
    } else {
        let sp = find_from(bytes, 32, pos);
        lemma_find_from(bytes, 32, pos);
        let nul = find_from(bytes, 0, sp + 1);
        lemma_find_from(bytes, 0, sp + 1);
        let mode = bytes.subrange(pos, sp);
        let raw = bytes.subrange(nul + 1, nul + 21);
        let item = TreeItemView {
            mode,
            name: bytes.subrange(sp + 1, nul),
            id: hex_encode(raw),
        };
        let rest = parse_items(bytes, nul + 21).unwrap();
        lemma_parse_items_sound(bytes, nul + 21);
        lemma_payload_cons(item, rest);
        lemma_hex_round_trip(raw);
        assert(lacks(mode, 32)) by {
            assert forall|j: int| 0 <= j < mode.len() implies mode[j] != 32 by {
                assert(mode[j] == bytes[pos + j]);
            }
        }
        assert(item_bytes(item) =~= bytes.subrange(pos, nul + 21));
        assert(bytes.subrange(pos, bytes.len() as int) =~= bytes.subrange(pos, nul + 21)
            + bytes.subrange(nul + 21, bytes.len() as int));
        let all = seq![item] + rest;
        assert forall|i: int| 0 <= i < all.len() implies item_wf(#[trigger] all[i]) by {
            if i > 0 {
                assert(all[i] == rest[i - 1]);
            }
        }
    }
}

/// Reading back, after any prefix, the payload of well-formed items gives the items.
pub proof fn lemma_parse_items_complete(prefix: Seq<u8>, items: Seq<TreeItemView>)
    requires
        forall|i: int| 0 <= i < items.len() ==> item_wf(#[trigger] items[i]),
    ensures
        parse_items(prefix + tree_payload(items), prefix.len() as int) == Some(items),
    decreases items.len(),
{
    let bytes = prefix + tree_payload(items);
    let pos = prefix.len() as int;
    if items.len() == 0 {
        assert(bytes =~= prefix);
    } else {
        let e = items[0];
        let rest = items.subrange(1, items.len() as int);
        assert(items =~= seq![e] + rest);
        lemma_payload_cons(e, rest);
        let mode = e.mode;
        let raw = hex_decode(e.id);
        assert(item_wf(e));
        lemma_hex_decode_encode(e.id);
        assert(raw.len() == 20);
        let eb = item_bytes(e);
        assert(bytes =~= prefix + eb + tree_payload(rest));
        let sp = pos + mode.len();
        let nul = sp + 1 + e.name.len();
        assert forall|j: int| pos <= j < sp implies bytes[j] != 32 by {
            assert(bytes[j] == mode[j - pos]);
        }
        assert(bytes[sp] == 32);
        lemma_find_unique(bytes, 32, pos, sp);
        assert forall|j: int| sp + 1 <= j < nul implies bytes[j] != 0 by {
            assert(bytes[j] == e.name[j - sp - 1]);
        }
        assert(bytes[nul] == 0);
        lemma_find_unique(bytes, 0, sp + 1, nul);
        assert(bytes.subrange(pos, sp) =~= mode);
        assert(bytes.subrange(sp + 1, nul) =~= e.name);
        assert(bytes.subrange(nul + 1, nul + 21) =~= raw);
        let prefix2 = prefix + eb;
        assert(prefix2.len() == nul + 21);
        lemma_parse_items_complete(prefix2, rest);
        assert(prefix2 + tree_payload(rest) =~= bytes);
        assert forall|i: int| 0 <= i < rest.len() implies item_wf(#[trigger] rest[i]) by {
            assert(rest[i] == items[i + 1]);
        }
    }
}

/// The payload of a well-formed tree reads back as that tree.
pub proof fn lemma_parse_tree_payload(items: Seq<TreeItemView>)
    requires
        tree_wf(items),
    ensures
        parse_tree(tree_payload(items)) == Some(items),
{
    lemma_parse_items_complete(Seq::empty(), items);
    assert(Seq::<u8>::empty() + tree_payload(items) =~= tree_payload(items));
}

/// What reads as a tree is well-formed and is the payload of what was read.
pub proof fn lemma_parse_tree_sound(bytes: Seq<u8>)
    requires
        parse_tree(bytes) is Some,
    ensures
        tree_wf(parse_tree(bytes).unwrap()),
        tree_payload(parse_tree(bytes).unwrap()) == bytes,
{
    lemma_parse_items_sound(bytes, 0);
    assert(bytes.subrange(0, bytes.len() as int) =~= bytes);
}

/// Where the last component of `path` starts: just after its last slash
/// before `i`, or at 0.
pub open spec fn base_start(path: Seq<u8>, i: int) -> int
    decreases i,
{
    if i <= 0 || i > path.len() {
        0
    } else if path[i - 1] == 47 {
        i
    } else {
        base_start(path, i - 1)
    }
}

/// The last component of a slash-separated path.
pub open spec fn base_name(path: Seq<u8>) -> Seq<u8> {
    path.subrange(base_start(path, path.len() as int), path.len() as int)
}

/// The last component of a path starts inside the path.
pub proof fn lemma_base_start(path: Seq<u8>, i: int)
    requires
        0 <= i <= path.len(),
    ensures
        0 <= base_start(path, i) <= i,
    decreases i,
{
    if i > 0 && path[i - 1] != 47 {
        lemma_base_start(path, i - 1);
    }
}

/// Executable `base_name`.
pub fn last_component(path: &[u8]) -> (r: Vec<u8>)
    ensures
        r@ == base_name(path@),
{
    let mut i: usize = path.len();
    while i > 0 && path[i - 1] != 47u8
        invariant
            i <= path@.len(),
            base_start(path@, path@.len() as int) == base_start(path@, i as int),
        decreases i,
    {
        i = i - 1;
    }
    copy_range(path, i, path.len())
}

/// The entry that `Tree::new` makes of a path and what it points at.
pub open spec fn entry_item(path: Seq<u8>, entry: TreeEntry) -> TreeItemView {
    TreeItemView { mode: mode_of(entry.is_tree()), name: base_name(path), id: entry.id() }
}

/// The entries that `Tree::new` makes of its argument, in the order given.
pub open spec fn entries_view(entries: Seq<(Vec<u8>, TreeEntry)>) -> Seq<TreeItemView> {
    Seq::new(entries.len(), |i: int| entry_item(entries[i].0@, entries[i].1))
}

/// The order in which `Tree::new` puts the entries of two paths: by the
/// last component, which is the name of the entry, and among entries of one
/// name by the whole path.
pub open spec fn path_le(a: Seq<u8>, b: Seq<u8>) -> bool {
    if base_name(a) == base_name(b) {
        lex_le(a, b)
    } else {
        lex_le(base_name(a), base_name(b))
    }
}

/// Of two paths, one comes before the other or is equal to it.
pub proof fn lemma_path_total(a: Seq<u8>, b: Seq<u8>)
    ensures
        path_le(a, b) || path_le(b, a),
{
    lemma_lex_total(a, b, 0);
    lemma_lex_total(base_name(a), base_name(b), 0);
}

/// The order of paths goes on from one path over a second to a third.
pub proof fn lemma_path_trans(a: Seq<u8>, b: Seq<u8>, c: Seq<u8>)
    requires
        path_le(a, b),
        path_le(b, c),
    ensures
        path_le(a, c),
{
    let na = base_name(a);
    let nb = base_name(b);
    let nc = base_name(c);
    if na == nb && nb == nc {
        lemma_lex_trans(a, b, c, 0);
    } else if na != nb && nb != nc {
        lemma_lex_trans(na, nb, nc, 0);
        if na == nc {
            lemma_lex_antisym(na, nb, 0);
            assert(na =~= nb);
        }
    }
}

/// The paths of the entries given to `Tree::new`.
pub open spec fn entry_paths(entries: Seq<(Vec<u8>, TreeEntry)>) -> Seq<Seq<u8>> {
    Seq::new(entries.len(), |i: int| entries[i].0@)
}

/// Whether `order` is the order in which `Tree::new` puts entries with the
/// paths `paths`: it lists every index once, the paths do not go back
/// along it, and of two entries with one path the one given first comes
/// first.
pub open spec fn is_path_order(paths: Seq<Seq<u8>>, order: Seq<usize>) -> bool {
    &&& order.len() == paths.len()
    &&& distinct_indices(order, paths.len() as int)
    &&& forall|i: int, j: int|
        0 <= i < j < order.len() ==> path_le(
            paths[#[trigger] order[i] as int],
            paths[#[trigger] order[j] as int],
        )
    &&& forall|i: int, j: int|
        0 <= i < j < order.len() && paths[#[trigger] order[i] as int] == paths[
        #[trigger] order[j] as int] ==> order[i] < order[j]
}

/// Whether `items` are the entries `entries` in the order in which
/// `Tree::new` puts them.
pub open spec fn put_in_order(entries: Seq<(Vec<u8>, TreeEntry)>, items: Seq<TreeItemView>) -> bool {
    exists|order: Seq<usize>| #[trigger]
        is_path_order(entry_paths(entries), order) && items.len() == entries.len() && forall|
            k: int,
        |
            0 <= k < items.len() ==> items[k] == entries_view(entries)[#[trigger] order[
                k
            ] as int]
}

/// Executable `path_le`.
pub fn path_before(a: &[u8], b: &[u8]) -> (r: bool)
    ensures
        r == path_le(a@, b@),
{
    let name_a = last_component(a);
    let name_b = last_component(b);
    if bytes_eq(name_a.as_slice(), name_b.as_slice()) {
        name_le(a, b)
    } else {
        name_le(name_a.as_slice(), name_b.as_slice())
    }
}

/// The 20 bytes that the 40 hex digits of an id spell; `MalformedObject` for
/// anything that is not an id.
pub fn get_formated_hash(hash: &[u8]) -> (r: Result<Vec<u8>, GitrError>)
    ensures
        match r {
            Ok(raw) => is_object_id(hash@) && raw@ == hex_decode(hash@) && raw@.len() == 20,
            Err(e) => !is_object_id(hash@) && e == GitrError::MalformedObject,
        },
{
    if hash.len() != 40 {
        return Err(GitrError::MalformedObject);
    }
    match from_hex(hash) {
        Some(raw) => Ok(raw),
        None => Err(GitrError::MalformedObject),
    }
}

/// A directory snapshot. Its view is the sequence of its entries.
#[derive(Debug)]
pub struct Tree {
    items: Vec<TreeItem>,
    hash: Vec<u8>,
}

impl View for Tree {
    type V = Seq<TreeItemView>;

    closed spec fn view(&self) -> Seq<TreeItemView> {
        items_view(self.items@)
    }
}

/// The bytes of the entries `items`, one after the other.
fn items_payload(items: &Vec<TreeItem>) -> (r: Vec<u8>)
    requires
        forall|i: int| 0 <= i < items@.len() ==> item_wf(#[trigger] items@[i]@),
    ensures
        r@ == tree_payload(items_view(items@)),
{
    let mut out: Vec<u8> = Vec::new();
    let mut i: usize = 0;
    let ghost all = items_view(items@);
    while i < items.len()
        invariant
            i <= items@.len(),
            all == items_view(items@),
            forall|k: int| 0 <= k < items@.len() ==> item_wf(#[trigger] items@[k]@),
            out@ == tree_payload(all.subrange(0, i as int)),
        decreases items@.len() - i,
    {
        let item = &items[i];
        proof {
            assert(item_wf(items@[i as int]@));
        }
        let raw = match from_hex(item.id.as_slice()) {
            Some(raw) => raw,
            None => Vec::new(),
        };
        push_all(&mut out, item.mode.as_slice());
        out.push(32u8);
        push_all(&mut out, item.name.as_slice());
        out.push(0u8);
        push_all(&mut out, raw.as_slice());
        proof {
            lemma_payload_push(all.subrange(0, i as int), all[i as int]);
            assert(all.subrange(0, i as int + 1) =~= all.subrange(0, i as int).push(
                all[i as int],
            ));
            assert(out@ =~= tree_payload(all.subrange(0, i as int)) + item_bytes(all[i as int]));
        }
        i = i + 1;
    }
    assert(all.subrange(0, items@.len() as int) =~= all);
    out
}

/// Reads the entries of a tree's payload.
fn read_items(bytes: &[u8]) -> (r: Option<Vec<TreeItem>>)
    ensures
        match r {
            Some(items) => parse_items(bytes@, 0) == Some(items_view(items@)),
            None => parse_items(bytes@, 0) is None,
        },
{
    let mut out: Vec<TreeItem> = Vec::new();
    let mut pos: usize = 0;
    proof {
        assert(items_view(out@) =~= Seq::<TreeItemView>::empty());
        match parse_items(bytes@, 0) {
            Some(rest) => {
                assert(items_view(out@) + rest =~= rest);
            },
            None => {},
        }
    }
    while pos < bytes.len()
        invariant
            pos <= bytes@.len(),
            parse_items(bytes@, 0) == match parse_items(bytes@, pos as int) {
                None => None,
                Some(rest) => Some(items_view(out@) + rest),
            },
        decreases bytes@.len() - pos,
    {
        let sp = find_byte(bytes, 32u8, pos);
        if sp >= bytes.len() {
            return None;
        }
        let nul = find_byte(bytes, 0u8, sp + 1);
        if nul >= bytes.len() || bytes.len() - nul < 21 {
            return None;
        }
        let mode = copy_range(bytes, pos, sp);
        let name = copy_range(bytes, sp + 1, nul);
        let raw = copy_range(bytes, nul + 1, nul + 21);
        let id = to_hex(raw.as_slice());
        let item = TreeItem { mode, name, id };
        proof {
            let rest = parse_items(bytes@, nul as int + 21);
            match rest {
                Some(rest) => {
                    assert(items_view(out@.push(item)) + rest =~= items_view(out@) + (seq![item@]
                        + rest));
                },
                None => {},
            }
        }
        out.push(item);
        pos = nul + 21;
    }
    proof {
        assert(items_view(out@) + Seq::<TreeItemView>::empty() =~= items_view(out@));
    }
    Some(out)
}

/// Whether the entries are sorted by name.
fn is_sorted(items: &Vec<TreeItem>) -> (r: bool)
    ensures
        r == sorted_by_name(items_view(items@)),
{
    if items.len() < 2 {
        return true;
    }
    let mut i: usize = 0;
    let ghost all = items_view(items@);
    while i < items.len() - 1
        invariant
            items@.len() >= 2,
            i <= items@.len() - 1,
            all == items_view(items@),
            forall|k: int| 0 <= k < i ==> lex_le(#[trigger] all[k].name, all[k + 1].name),
        decreases items@.len() - i,
    {
        if !name_le(items[i].name.as_slice(), items[i + 1].name.as_slice()) {
            assert(!lex_le(all[i as int].name, all[i as int + 1].name));
            return false;
        }
        i = i + 1;
    }
    true
}

impl Tree {
    #[verifier::type_invariant]
    spec fn inv(&self) -> bool {
        &&& tree_wf(items_view(self.items@))
        &&& self.hash@ == object_id(ObjectKind::Tree, tree_payload(items_view(self.items@)))
        &&& is_object_id(self.hash@)
    }

    /// The id of this tree.
    pub closed spec fn id(&self) -> Seq<u8> {
        object_id(ObjectKind::Tree, tree_payload(items_view(self.items@)))
    }

    /// The id is that of the payload of the entries.
    pub proof fn lemma_id(&self)
        ensures
            self.id() == object_id(ObjectKind::Tree, tree_payload(self@)),
    {
    }

    /// The tree of the given entries, each under the last component of its
    /// path, sorted by name; entries of one name stand in the order of
    /// their whole paths, and entries of one path in the order given. Fails
    /// with `MalformedObject` exactly when one of the names holds a NUL.
    pub fn new(entries: Vec<(Vec<u8>, TreeEntry)>) -> (r: Result<Tree, GitrError>)
        ensures
            match r {
                Ok(t) => {
                    &&& tree_wf(t@)
                    &&& t@.to_multiset() == entries_view(entries@).to_multiset()
                    &&& put_in_order(entries@, t@)
                    &&& forall|i: int|
                        0 <= i < entries@.len() ==> lacks(
                            #[trigger] entries_view(entries@)[i].name,
                            0,
                        )
                },
                Err(e) => {
                    &&& e == GitrError::MalformedObject
                    &&& exists|i: int|
                        0 <= i < entries@.len() && !lacks(
                            #[trigger] entries_view(entries@)[i].name,
                            0,
                        )
                },
            },
    {
        let mut items: Vec<TreeItem> = Vec::new();
        let mut order: Vec<usize> = Vec::new();
        let mut i: usize = 0;
        let ghost all = entries_view(entries@);
        let ghost paths = entry_paths(entries@);
        proof {
            assert(all.subrange(0, 0) =~= Seq::<TreeItemView>::empty());
            assert(items_view(items@) =~= Seq::<TreeItemView>::empty());
        }
        while i < entries.len()
            invariant
                i <= entries@.len(),
                all == entries_view(entries@),
                paths == entry_paths(entries@),
                forall|k: int| 0 <= k < items@.len() ==> item_wf(#[trigger] items@[k]@),
                items_view(items@).to_multiset() == all.subrange(0, i as int).to_multiset(),
                forall|k: int| 0 <= k < i ==> lacks((#[trigger] all[k]).name, 0),
                items@.len() == i,
                order@.len() == i,
                distinct_indices(order@, i as int),
                forall|a: int, b: int|
                    0 <= a < b < order@.len() ==> path_le(
                        paths[#[trigger] order@[a] as int],
                        paths[#[trigger] order@[b] as int],
                    ),
                forall|a: int, b: int|
                    0 <= a < b < order@.len() && paths[#[trigger] order@[a] as int] == paths[
                    #[trigger] order@[b] as int] ==> order@[a] < order@[b],
                forall|k: int| 0 <= k < i ==> items@[k]@ == all[#[trigger] order@[k] as int],
            decreases entries@.len() - i,
        {
            let name = last_component(entries[i].0.as_slice());
            if find_byte(name.as_slice(), 0u8, 0) < name.len() {
                proof {
                    lemma_find_from(name@, 0, 0);
                    assert(!lacks(all[i as int].name, 0));
                }
                return Err(GitrError::MalformedObject);
            }
            proof {
                lemma_find_from(name@, 0, 0);
            }
            let id = entries[i].1.get_hash();
            proof {
                lemma_modes();
                reveal_strlit("40000");
                reveal_strlit("100644");
            }
            let mode = match &entries[i].1 {
                TreeEntry::Tree(_) => bytes_of("40000"),
                TreeEntry::Blob(_) => bytes_of("100644"),
            };
            let item = TreeItem { mode, name, id };
            assert(item@ == all[i as int]);
            assert(paths[i as int] == entries@[i as int].0@);
            let mut k: usize = 0;
            while k < order.len() && path_before(
                entries[order[k]].0.as_slice(),
                entries[i].0.as_slice(),
            )
                invariant
                    k <= order@.len(),
                    i < entries@.len(),
                    paths == entry_paths(entries@),
                    distinct_indices(order@, i as int),
                    forall|j: int|
                        0 <= j < k ==> path_le(
                            paths[#[trigger] order@[j] as int],
                            paths[i as int],
                        ),
                decreases order@.len() - k,
            {
                assert(paths[order@[k as int] as int] == entries@[order@[k as int] as int].0@);
                k = k + 1;
            }
            let ghost before = items@;
            let ghost was = order@;
            proof {
                vstd::seq_lib::to_multiset_insert(items_view(before), k as int, item@);
                vstd::seq_lib::to_multiset_build(all.subrange(0, i as int), all[i as int]);
                assert(all.subrange(0, i as int + 1) =~= all.subrange(0, i as int).push(
                    all[i as int],
                ));
                if k < was.len() {
                    assert(paths[was[k as int] as int] == entries@[was[k as int] as int].0@);
                    lemma_path_total(paths[was[k as int] as int], paths[i as int]);
                }
            }
            items.insert(k, item);
            order.insert(k, i);
            proof {
                let now = items_view(items@);
                assert(now =~= items_view(before).insert(k as int, all[i as int]));
                assert(order@ =~= was.insert(k as int, i));
                assert forall|a: int| 0 <= a < order@.len() implies (#[trigger] order@[a]) < i
                    + 1 by {
                    if a < k {
                        assert(order@[a] == was[a]);
                    } else if a > k {
                        assert(order@[a] == was[a - 1]);
                    }
                }
                assert forall|a: int, b: int| 0 <= a < b < order@.len() implies #[trigger] order@[a]
                    != #[trigger] order@[b] by {
                    let oa = if a < k {
                        a
                    } else {
                        a - 1
                    };
                    let ob = if b < k {
                        b
                    } else {
                        b - 1
                    };
                    if a != k && b != k {
                        assert(order@[a] == was[oa] && order@[b] == was[ob]);
                    } else if a == k {
                        assert(order@[b] == was[ob]);
                    } else {
                        assert(order@[a] == was[oa]);
                    }
                }
                assert forall|a: int, b: int| 0 <= a < b < order@.len() implies path_le(
                    paths[#[trigger] order@[a] as int],
                    paths[#[trigger] order@[b] as int],
                ) && (paths[order@[a] as int] == paths[order@[b] as int] ==> order@[a]
                    < order@[b]) by {
                    let oa = if a < k {
                        a
                    } else {
                        a - 1
                    };
                    let ob = if b < k {
                        b
                    } else {
                        b - 1
                    };
                    if a != k && b != k {
                        assert(order@[a] == was[oa] && order@[b] == was[ob]);
                    } else if b == k {
                        assert(order@[a] == was[oa]);
                    } else {
                        assert(order@[b] == was[ob]);
                        let pk = paths[was[k as int] as int];
                        let pb = paths[was[ob] as int];
                        let pi = paths[i as int];
                        if ob > k {
                            assert(path_le(
                                paths[was[k as int] as int],
                                paths[was[ob] as int],
                            ));
                        } else {
                            lemma_lex_refl(pk, 0);
                        }
                        lemma_path_trans(pi, pk, pb);
                        if pi == pb {
                            lemma_path_trans(pk, pb, pi);
                        }
                    }
                }
                assert forall|a: int| 0 <= a < i + 1 implies items@[a]@ == all[
                #[trigger] order@[a] as int] by {
                    if a < k {
                        assert(items@[a] == before[a] && order@[a] == was[a]);
                    } else if a > k {
                        assert(items@[a] == before[a - 1] && order@[a] == was[a - 1]);
                    }
                }
                assert forall|j: int| 0 <= j < items@.len() implies item_wf(
                    #[trigger] items@[j]@,
                ) by {
                    if j < k {
                        assert(items@[j] == before[j]);
                    } else if j > k {
                        assert(items@[j] == before[j - 1]);
                    }
                }
            }
            i = i + 1;
        }
        proof {
            assert(all.subrange(0, entries@.len() as int) =~= all);
            let now = items_view(items@);
            assert(is_path_order(paths, order@));
            assert forall|k: int| 0 <= k < now.len() implies now[k] == all[
            #[trigger] order@[k] as int] by {
                assert(now[k] == items@[k]@);
            }
            assert(put_in_order(entries@, now));
            assert forall|j: int| 0 <= j < now.len() - 1 implies lex_le(
                #[trigger] now[j].name,
                now[j + 1].name,
            ) by {
                let pa = paths[order@[j] as int];
                let pb = paths[order@[j + 1] as int];
                assert(path_le(pa, pb));
                assert(now[j] == all[order@[j] as int]);
                assert(now[j + 1] == all[order@[j + 1] as int]);
                assert(now[j].name == base_name(pa));
                assert(now[j + 1].name == base_name(pb));
                if base_name(pa) == base_name(pb) {
                    lemma_lex_refl(base_name(pa), 0);
                }
            }
        }
        let payload = items_payload(&items);
        let hash = hash_object(ObjectKind::Tree, payload.as_slice());
        Ok(Tree { items, hash })
    }

    /// The tree whose payload is `raw_data`: its entries, each of the form
    /// mode, space, name, NUL and the 20 bytes of an id, with the mode kept
    /// as it is written. The payload of the tree is `raw_data` again.
    /// `MalformedObject` when an entry is cut short or the entries are not
    /// sorted by name.
    pub fn new_from_packfile(raw_data: &[u8]) -> (r: Result<Tree, GitrError>)
        ensures
            match r {
                Ok(t) => parse_tree(raw_data@) == Some(t@) && tree_wf(t@) && tree_payload(t@)
                    == raw_data@,
                Err(e) => parse_tree(raw_data@) is None && e == GitrError::MalformedObject,
            },
    {
        let items = match read_items(raw_data) {
            Some(items) => items,
            None => {
                return Err(GitrError::MalformedObject);
            },
        };
        if !is_sorted(&items) {
            return Err(GitrError::MalformedObject);
        }
        proof {
            lemma_parse_tree_sound(raw_data@);
        }
        let hash = hash_object(ObjectKind::Tree, raw_data);
        Ok(Tree { items, hash })
    }

    /// The id of this tree.
    pub fn get_hash(&self) -> (r: Vec<u8>)
        ensures
            r@ == self.id(),
            r@ == object_id(ObjectKind::Tree, tree_payload(self@)),
            is_object_id(r@),
    {
        proof {
            use_type_invariant(self);
        }
        self.hash.clone()
    }

    /// The stored form of this tree: its canonical form, compressed;
    /// `CompressionError` when the compressor fails.
    pub fn get_data(&self) -> (r: Result<Vec<u8>, GitrError>)
        ensures
            match r {
                Ok(v) => compresses(canonical(ObjectKind::Tree, tree_payload(self@))) && v@ == zlib_stream(
                    canonical(ObjectKind::Tree, tree_payload(self@)),
                )
                    && is_stream_of(v@, canonical(ObjectKind::Tree, tree_payload(self@))),
                Err(e) => e == GitrError::CompressionError && !compresses(
                    canonical(ObjectKind::Tree, tree_payload(self@)),
                ),
            },
    {
        let payload = self.get_content();
        let bytes = canonical_bytes(ObjectKind::Tree, payload.as_slice());
        flate2compress2(bytes.as_slice())
    }

    /// Saves this tree in `store`, unless its id is held there already.
    /// On `CompressionError` the store is unchanged.
    pub fn save(&self, store: &mut ObjectStore) -> (r: Result<(), GitrError>)
        ensures
            match r {
                Ok(_) => (holds(old(store)@, object_id(ObjectKind::Tree, tree_payload(self@))) || compresses(
                    canonical(ObjectKind::Tree, tree_payload(self@)),
                )) && final(store)@ == written(
                    old(store)@,
                    object_id(ObjectKind::Tree, tree_payload(self@)),
                    zlib_stream(canonical(ObjectKind::Tree, tree_payload(self@))),
                ),
                Err(e) => {
                    &&& e == GitrError::CompressionError
                    &&& final(store)@ == old(store)@
                    &&& !holds(old(store)@, object_id(ObjectKind::Tree, tree_payload(self@)))
                    &&& !compresses(canonical(ObjectKind::Tree, tree_payload(self@)))
                },
            },
    {
        let payload = self.get_content();
        match store.put_payload(ObjectKind::Tree, payload.as_slice()) {
            Ok(_) => Ok(()),
            Err(e) => Err(e),
        }
    }

    /// The payload of this tree.
    pub fn get_content(&self) -> (r: Vec<u8>)
        ensures
            r@ == tree_payload(self@),
            tree_wf(self@),
    {
        proof {
            use_type_invariant(self);
            assert forall|i: int| 0 <= i < self.items@.len() implies item_wf(
                #[trigger] self.items@[i]@,
            ) by {
                assert(item_wf(items_view(self.items@)[i]));
            }
        }
        items_payload(&self.items)
    }

    /// How many entries the tree has.
    pub fn len(&self) -> (r: usize)
        ensures
            r == self@.len(),
    {
        self.items.len()
    }

    /// The `i`-th entry: whether it is a tree, its name and the id it points at.
    pub fn get_entry(&self, i: usize) -> (r: (bool, Vec<u8>, Vec<u8>))
        requires
            i < self@.len(),
        ensures
            r.0 == self@[i as int].is_tree(),
            r.1@ == self@[i as int].name,
            r.2@ == self@[i as int].id,
            item_wf(self@[i as int]),
    {
        proof {
            use_type_invariant(self);
        }
        (self.items[i].is_tree(), self.items[i].name.clone(), self.items[i].id.clone())
    }
}

} // verus!
