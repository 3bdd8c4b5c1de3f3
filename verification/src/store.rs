//! The causal block store: the items a replica has integrated, in causal
//! order, and those that still wait for an item they depend on.

use crate::item::{items_view, BlockId, Content, ContentView, Item, ItemView};
use crate::order::{
    agree, is_prefix, key_lt, lemma_after_subtree, lemma_between, lemma_branch, lemma_path_lt_asym,
    lemma_path_lt_trans, lemma_path_trichotomy, path_lt, Path, SibKey,
};
use vstd::prelude::*;

verus! {

/// An integrated item with its place in the causal order.
pub struct Node {
    pub item: Item,
    /// The tombstone flag: set once, never cleared.
    pub deleted: bool,
    /// The number of items above this one on the way to the head of its
    /// sequence.
    pub level: usize,
    /// The priority among the children of the same left origin.
    pub prio: u64,
    /// The sibling keys from the head of the sequence down to this item.
    pub path: Ghost<Path>,
}

/// The mathematical value of a [`Node`].
pub ghost struct NodeView {
    pub item: ItemView,
    pub deleted: bool,
    pub prio: nat,
    pub path: Path,
}

impl View for Node {
    type V = NodeView;

    open spec fn view(&self) -> NodeView {
        NodeView { item: self.item@, deleted: self.deleted, prio: self.prio as nat, path: self.path@ }
    }
}

/// The views of a vector of nodes.
pub open spec fn nodes_view(nodes: Seq<Node>) -> Seq<NodeView> {
    Seq::new(nodes.len(), |i: int| nodes[i]@)
}

/// An item with this identity is integrated.
pub open spec fn has_id(nodes: Seq<NodeView>, id: BlockId) -> bool {
    exists|i: int| 0 <= i < nodes.len() && (#[trigger] nodes[i]).item.id == id
}

/// Where the item with this identity stands.
pub open spec fn index_of(nodes: Seq<NodeView>, id: BlockId) -> int {
    choose|i: int| 0 <= i < nodes.len() && (#[trigger] nodes[i]).item.id == id
}

/// A tombstone for this identity is integrated.
pub open spec fn targeted(nodes: Seq<NodeView>, id: BlockId) -> bool {
    exists|i: int| 0 <= i < nodes.len() && (#[trigger] nodes[i]).item.content == ContentView::Delete(id)
}

/// The sibling key of a node.
pub open spec fn key_of(n: NodeView) -> SibKey {
    SibKey { prio: n.prio, replica: n.item.id.replica, clock: n.item.id.clock }
}

/// The path of the left origin; the empty path for an item without one.
pub open spec fn parent_path(nodes: Seq<NodeView>, left: Option<BlockId>) -> Path {
    match left {
        None => Seq::empty(),
        Some(l) => nodes[index_of(nodes, l)].path,
    }
}

/// The priority of a new item: one above its right origin where that is a
/// child of the same left origin, else zero.
pub open spec fn prio_for(nodes: Seq<NodeView>, x: ItemView) -> nat {
    match x.right {
        Some(r) => if has_id(nodes, r) && nodes[index_of(nodes, r)].item.left == x.left {
            nodes[index_of(nodes, r)].prio + 1
        } else {
            0
        },
        None => 0,
    }
}

/// The node that a new item becomes.
pub open spec fn node_for(nodes: Seq<NodeView>, x: ItemView) -> NodeView {
    let prio = prio_for(nodes, x);
    NodeView {
        item: x,
        deleted: targeted(nodes, x.id),
        prio,
        path: parent_path(nodes, x.left).push(
            SibKey { prio, replica: x.id.replica, clock: x.id.clock },
        ),
    }
}

/// Everything before `pos` comes before `p`, everything from `pos` on after it.
pub open spec fn splits_at(nodes: Seq<NodeView>, p: Path, pos: int) -> bool {
    &&& 0 <= pos <= nodes.len()
    &&& forall|j: int| 0 <= j < pos ==> path_lt((#[trigger] nodes[j]).path, p)
    &&& forall|j: int| pos <= j < nodes.len() ==> path_lt(p, (#[trigger] nodes[j]).path)
}

/// The place of path `p` in the order.
pub open spec fn sorted_pos(nodes: Seq<NodeView>, p: Path) -> int {
    choose|pos: int| splits_at(nodes, p, pos)
}

/// The nodes with the target of `x` flagged, where `x` is a tombstone.
pub open spec fn mark(nodes: Seq<NodeView>, x: ItemView) -> Seq<NodeView> {
    match x.content {
        ContentView::Delete(t) => Seq::new(
            nodes.len(),
            |i: int|
                if nodes[i].item.id == t {
                    NodeView { deleted: true, ..nodes[i] }
                } else {
                    nodes[i]
                },
        ),
        _ => nodes,
    }
}

/// The order with `x` integrated.
pub open spec fn integrate_spec(nodes: Seq<NodeView>, x: ItemView) -> Seq<NodeView> {
    let n = node_for(nodes, x);
    mark(nodes.insert(sorted_pos(nodes, n.path), n), x)
}

/// `x` can be integrated: it is new, its clock follows on its replica's
/// last, and its origins are integrated.
pub open spec fn ready(nodes: Seq<NodeView>, x: ItemView) -> bool {
    &&& !has_id(nodes, x.id)
    &&& x.id.clock < u64::MAX
    &&& x.id.clock > 0 ==> has_id(nodes, BlockId { replica: x.id.replica, clock: (x.id.clock - 1) as u64 })
    &&& x.left is Some ==> has_id(nodes, x.left->Some_0)
    &&& x.right is Some ==> has_id(nodes, x.right->Some_0)
}

/// What holds of the node at index `i` of a well-formed order.
pub open spec fn node_ok(nodes: Seq<NodeView>, i: int) -> bool {
    let n = nodes[i];
    &&& 1 <= n.path.len() <= i + 1
    &&& n.path.last() == key_of(n)
    &&& n.prio < nodes.len()
    &&& n.item.id.clock < u64::MAX
    &&& n.deleted == targeted(nodes, n.item.id)
    &&& match n.item.left {
        None => n.path.len() == 1,
        Some(l) => exists|j: int|
            0 <= j < i && (#[trigger] nodes[j]).item.id == l && n.path == nodes[j].path.push(
                key_of(n),
            ),
    }
}

/// The order is well formed: sorted by path, identities unique, every
/// node below its left origin, and flagged exactly where a tombstone names it.
pub open spec fn wf_nodes(nodes: Seq<NodeView>) -> bool {
    &&& forall|i: int, j: int|
        0 <= i < j < nodes.len() ==> path_lt((#[trigger] nodes[i]).path, (#[trigger] nodes[j]).path)
    &&& forall|i: int, j: int|
        0 <= i < j < nodes.len() ==> (#[trigger] nodes[i]).item.id != (#[trigger] nodes[j]).item.id
    &&& forall|i: int| 0 <= i < nodes.len() ==> #[trigger] node_ok(nodes, i)
}

/// In a well-formed order an identity stands at one index only.
pub proof fn lemma_index_of(nodes: Seq<NodeView>, i: int)
    requires
        wf_nodes(nodes),
        0 <= i < nodes.len(),
    ensures
        has_id(nodes, nodes[i].item.id),
        index_of(nodes, nodes[i].item.id) == i,
{
    let id = nodes[i].item.id;
    let j = index_of(nodes, id);
    if j < i {
        assert(nodes[j].item.id != nodes[i].item.id);
    } else if i < j {
        assert(nodes[i].item.id != nodes[j].item.id);
    }
}

/// A node shares all but its own entry with the node just before it.
pub proof fn lemma_adjacent(nodes: Seq<NodeView>, j: int)
    requires
        wf_nodes(nodes),
        0 < j < nodes.len(),
    ensures
        agree(nodes[j].path, nodes[j - 1].path, nodes[j].path.len() - 1),
{
    let n = nodes[j];
    let a = nodes[j - 1];
    assert(node_ok(nodes, j));
    assert(node_ok(nodes, j - 1));
    match n.item.left {
        None => {},
        Some(l) => {
            let i = choose|i: int|
                0 <= i < j && (#[trigger] nodes[i]).item.id == l && n.path == nodes[i].path.push(
                    key_of(n),
                );
            if i < j - 1 {
                assert(path_lt(nodes[i].path, a.path));
                assert(path_lt(a.path, n.path));
                lemma_between(nodes[i].path, a.path, key_of(n));
            }
        },
    }
}

/// The place of a path in the order is unique.
pub proof fn lemma_splits_unique(nodes: Seq<NodeView>, p: Path, pos: int)
    requires
        splits_at(nodes, p, pos),
    ensures
        sorted_pos(nodes, p) == pos,
{
    let q = sorted_pos(nodes, p);
    if q < pos {
        lemma_path_lt_asym(nodes[q].path, p);
    } else if pos < q {
        lemma_path_lt_asym(nodes[pos].path, p);
    }
}

/// The index in the old order of what stands at index `k` after an
/// insertion at `pos`.
pub open spec fn before_insert(pos: int, k: int) -> int {
    if k < pos {
        k
    } else {
        k - 1
    }
}

proof fn lemma_targeted_after(nodes: Seq<NodeView>, x: ItemView, pos: int, n: NodeView, id: BlockId)
    requires
        0 <= pos <= nodes.len(),
        n.item == x,
    ensures
        targeted(mark(nodes.insert(pos, n), x), id) <==> targeted(nodes, id) || x.content
            == ContentView::Delete(id),
{
    let mid = nodes.insert(pos, n);
    let fin = mark(mid, x);
    assert(fin.len() == mid.len());
    assert forall|k: int| 0 <= k < fin.len() implies (#[trigger] fin[k]).item == mid[k].item by {}
    if targeted(fin, id) {
        let k = choose|k: int|
            0 <= k < fin.len() && (#[trigger] fin[k]).item.content == ContentView::Delete(id);
        assert(mid[k].item.content == ContentView::Delete(id));
        if k != pos {
            assert(nodes[before_insert(pos, k)].item.content == ContentView::Delete(id));
        }
    }
    if targeted(nodes, id) {
        let i = choose|i: int|
            0 <= i < nodes.len() && (#[trigger] nodes[i]).item.content == ContentView::Delete(id);
        let k = if i < pos {
            i
        } else {
            i + 1
        };
        assert(mid[k] == nodes[i]);
        assert(fin[k].item.content == ContentView::Delete(id));
    }
    if x.content == ContentView::Delete(id) {
        assert(mid[pos] == n);
        assert(fin[pos].item.content == ContentView::Delete(id));
    }
}

/// Integrating a ready item at the place of its path keeps the order well
/// formed.
pub proof fn lemma_integrate_wf(nodes: Seq<NodeView>, x: ItemView, pos: int)
    requires
        wf_nodes(nodes),
        ready(nodes, x),
        splits_at(nodes, node_for(nodes, x).path, pos),
    ensures
        integrate_spec(nodes, x) == mark(nodes.insert(pos, node_for(nodes, x)), x),
        wf_nodes(integrate_spec(nodes, x)),
        integrate_spec(nodes, x).len() == nodes.len() + 1,
{
    let n = node_for(nodes, x);
    lemma_splits_unique(nodes, n.path, pos);
    let mid = nodes.insert(pos, n);
    let fin = mark(mid, x);
    assert(fin.len() == mid.len());
    assert forall|k: int| 0 <= k < fin.len() implies (#[trigger] fin[k]).item == mid[k].item
        && fin[k].path == mid[k].path && fin[k].prio == mid[k].prio && (fin[k].deleted == (
    mid[k].deleted || x.content == ContentView::Delete(mid[k].item.id))) by {}
    assert forall|k: int| 0 <= k < mid.len() && k != pos implies #[trigger] mid[k]
        == nodes[before_insert(pos, k)] by {}
    assert(mid[pos] == n);
    // sorted
    assert forall|i: int, j: int| 0 <= i < j < fin.len() implies path_lt(
        (#[trigger] fin[i]).path,
        (#[trigger] fin[j]).path,
    ) by {
        if i == pos {
            assert(path_lt(n.path, nodes[before_insert(pos, j)].path));
        } else if j == pos {
            assert(path_lt(nodes[before_insert(pos, i)].path, n.path));
        } else {
            assert(path_lt(
                nodes[before_insert(pos, i)].path,
                nodes[before_insert(pos, j)].path,
            ));
        }
    }
    // identities
    assert forall|i: int, j: int| 0 <= i < j < fin.len() implies (#[trigger] fin[i]).item.id != (
    #[trigger] fin[j]).item.id by {
        if i == pos {
            assert(nodes[before_insert(pos, j)].item.id != x.id);
        } else if j == pos {
            assert(nodes[before_insert(pos, i)].item.id != x.id);
        } else {
            assert(nodes[before_insert(pos, i)].item.id != nodes[before_insert(pos, j)].item.id);
        }
    }
    // the new node
    let key = key_of(n);
    assert(n.path.last() == key);
    match x.left {
        None => {},
        Some(l) => {
            let li = index_of(nodes, l);
            assert(node_ok(nodes, li));
            assert(is_prefix(nodes[li].path, n.path));
            assert(path_lt(nodes[li].path, n.path));
            if li >= pos {
                lemma_path_lt_asym(nodes[li].path, n.path);
            }
            assert(fin[li].item.id == l);
        },
    }
    match x.right {
        Some(r) => {
            if has_id(nodes, r) {
                assert(node_ok(nodes, index_of(nodes, r)));
            }
        },
        None => {},
    }
    assert forall|k: int| 0 <= k < fin.len() implies #[trigger] node_ok(fin, k) by {
        lemma_targeted_after(nodes, x, pos, n, fin[k].item.id);
        if k != pos {
            let o = before_insert(pos, k);
            assert(node_ok(nodes, o));
            match nodes[o].item.left {
                None => {},
                Some(l) => {
                    let j = choose|j: int|
                        0 <= j < o && (#[trigger] nodes[j]).item.id == l && nodes[o].path
                            == nodes[j].path.push(key_of(nodes[o]));
                    let j2 = if j < pos {
                        j
                    } else {
                        j + 1
                    };
                    assert(mid[j2] == nodes[j]);
                    assert(fin[j2].item.id == l);
                },
            }
        }
    }
}

/// `m` is the node `n`, flagged where `n` is.
pub open spec fn above(n: NodeView, m: NodeView) -> bool {
    m.item == n.item && m.path == n.path && m.prio == n.prio && (n.deleted ==> m.deleted)
}

/// The node `n` stands in `b`.
pub open spec fn carried(n: NodeView, b: Seq<NodeView>) -> bool {
    exists|j: int| 0 <= j < b.len() && above(n, #[trigger] b[j])
}

/// Every node of `a` stands in `b` too, with the same item and place in
/// the tree, and flagged in `b` where it is flagged in `a`.
#[verifier::opaque]
pub open spec fn extends(a: Seq<NodeView>, b: Seq<NodeView>) -> bool {
    forall|i: int| 0 <= i < a.len() ==> carried(#[trigger] a[i], b)
}

/// An order extends itself.
pub proof fn lemma_extends_refl(a: Seq<NodeView>)
    ensures
        extends(a, a),
{
    reveal(extends);
    assert forall|i: int| 0 <= i < a.len() implies carried(#[trigger] a[i], a) by {
        assert(above(a[i], a[i]));
    }
}

/// Extending carries over two steps.
pub proof fn lemma_extends_trans(a: Seq<NodeView>, b: Seq<NodeView>, c: Seq<NodeView>)
    requires
        extends(a, b),
        extends(b, c),
    ensures
        extends(a, c),
{
    reveal(extends);
    assert forall|i: int| 0 <= i < a.len() implies carried(#[trigger] a[i], c) by {
        assert(carried(a[i], b));
        let j = choose|j: int| 0 <= j < b.len() && above(a[i], #[trigger] b[j]);
        assert(carried(b[j], c));
        let k = choose|k: int| 0 <= k < c.len() && above(b[j], #[trigger] c[k]);
        assert(above(a[i], c[k]));
    }
}

/// The identities known in the second state are those known in the first,
/// and `extra`.
#[verifier::opaque]
pub open spec fn known_plus(
    a: Seq<NodeView>,
    ap: Seq<ItemView>,
    b: Seq<NodeView>,
    bp: Seq<ItemView>,
    extra: Option<BlockId>,
) -> bool {
    forall|id: BlockId|
        has_id(b, id) || waiting(bp, id) <==> has_id(a, id) || waiting(ap, id) || extra == Some(id)
}

proof fn lemma_splits_prefix(nodes: Seq<NodeView>, p: Path, k: int) -> (pos: int)
    requires
        wf_nodes(nodes),
        0 <= k <= nodes.len(),
        forall|i: int| 0 <= i < nodes.len() ==> (#[trigger] nodes[i]).path != p,
    ensures
        0 <= pos <= k,
        forall|j: int| 0 <= j < pos ==> path_lt((#[trigger] nodes[j]).path, p),
        forall|j: int| pos <= j < k ==> path_lt(p, (#[trigger] nodes[j]).path),
    decreases k,
{
    if k == 0 {
        0
    } else {
        let last = nodes[k - 1];
        lemma_path_trichotomy(last.path, p);
        if path_lt(last.path, p) {
            assert forall|j: int| 0 <= j < k implies path_lt((#[trigger] nodes[j]).path, p) by {
                if j < k - 1 {
                    assert(path_lt(nodes[j].path, nodes[k - 1].path));
                    lemma_path_lt_trans(nodes[j].path, last.path, p);
                }
            }
            k
        } else {
            lemma_splits_prefix(nodes, p, k - 1)
        }
    }
}

/// A ready item has a place in a well-formed order.
pub proof fn lemma_slot(nodes: Seq<NodeView>, x: ItemView) -> (pos: int)
    requires
        wf_nodes(nodes),
        ready(nodes, x),
    ensures
        splits_at(nodes, node_for(nodes, x).path, pos),
        pos == sorted_pos(nodes, node_for(nodes, x).path),
{
    let n = node_for(nodes, x);
    assert forall|i: int| 0 <= i < nodes.len() implies (#[trigger] nodes[i]).path != n.path by {
        assert(node_ok(nodes, i));
        if nodes[i].path == n.path {
            assert(nodes[i].path.last() == n.path.last());
            assert(nodes[i].item.id == x.id);
        }
    }
    let pos = lemma_splits_prefix(nodes, n.path, nodes.len() as int);
    lemma_splits_unique(nodes, n.path, pos);
    pos
}

/// What stood at index `k` before tombstones were marked.
pub open spec fn source(nodes: Seq<NodeView>, pos: int, n: NodeView, k: int) -> NodeView {
    if k == pos {
        n
    } else {
        nodes[before_insert(pos, k)]
    }
}

proof fn lemma_shape(nodes: Seq<NodeView>, x: ItemView, pos: int, n: NodeView)
    requires
        0 <= pos <= nodes.len(),
    ensures
        mark(nodes.insert(pos, n), x).len() == nodes.len() + 1,
        forall|k: int|
            0 <= k <= nodes.len() ==> above(
                source(nodes, pos, n, k),
                #[trigger] mark(nodes.insert(pos, n), x)[k],
            ),
{
    let mid = nodes.insert(pos, n);
    let fin = mark(mid, x);
    assert(fin.len() == mid.len());
    assert forall|k: int| 0 <= k <= nodes.len() implies above(
        source(nodes, pos, n, k),
        #[trigger] fin[k],
    ) by {
        assert(mid[k] == source(nodes, pos, n, k));
    }
}

proof fn lemma_integrate_extends(nodes: Seq<NodeView>, x: ItemView, pos: int)
    requires
        0 <= pos <= nodes.len(),
    ensures
        extends(nodes, mark(nodes.insert(pos, node_for(nodes, x)), x)),
{
    reveal(extends);
    let n = node_for(nodes, x);
    let fin = mark(nodes.insert(pos, n), x);
    lemma_shape(nodes, x, pos, n);
    assert forall|i: int| 0 <= i < nodes.len() implies carried(#[trigger] nodes[i], fin) by {
        let j = if i < pos {
            i
        } else {
            i + 1
        };
        assert(source(nodes, pos, n, j) == nodes[i]);
        assert(above(nodes[i], fin[j]));
    }
}

proof fn lemma_integrate_ids(nodes: Seq<NodeView>, x: ItemView, pos: int)
    requires
        0 <= pos <= nodes.len(),
    ensures
        known_plus(
            nodes,
            Seq::empty(),
            mark(nodes.insert(pos, node_for(nodes, x)), x),
            Seq::empty(),
            Some(x.id),
        ),
{
    reveal(known_plus);
    let n = node_for(nodes, x);
    let fin = mark(nodes.insert(pos, n), x);
    lemma_shape(nodes, x, pos, n);
    assert forall|id: BlockId|
        has_id(fin, id) || waiting(Seq::<ItemView>::empty(), id) <==> has_id(nodes, id) || waiting(
            Seq::<ItemView>::empty(),
            id,
        ) || Some(x.id) == Some(id) by {
        if has_id(nodes, id) {
            let i = index_of(nodes, id);
            let j = if i < pos {
                i
            } else {
                i + 1
            };
            assert(source(nodes, pos, n, j) == nodes[i]);
            assert(above(nodes[i], fin[j]));
            assert(has_id(fin, id));
        }
        if id == x.id {
            assert(above(source(nodes, pos, n, pos), fin[pos]));
            assert(has_id(fin, id));
        }
        if has_id(fin, id) {
            let k = index_of(fin, id);
            assert(above(source(nodes, pos, n, k), fin[k]));
            if k != pos {
                assert(nodes[before_insert(pos, k)].item.id == id);
                assert(has_id(nodes, id));
            }
        }
    }
}

/// With a ready item integrated the order is well formed, holds every node
/// it held, and holds the item.
pub proof fn lemma_integrate(nodes: Seq<NodeView>, x: ItemView)
    requires
        wf_nodes(nodes),
        ready(nodes, x),
    ensures
        wf_nodes(integrate_spec(nodes, x)),
        integrate_spec(nodes, x).len() == nodes.len() + 1,
        extends(nodes, integrate_spec(nodes, x)),
        known_plus(nodes, Seq::empty(), integrate_spec(nodes, x), Seq::empty(), Some(x.id)),
{
    let pos = lemma_slot(nodes, x);
    lemma_integrate_wf(nodes, x, pos);
    lemma_integrate_extends(nodes, x, pos);
    lemma_integrate_ids(nodes, x, pos);
}

proof fn lemma_known_step(
    nodes: Seq<NodeView>,
    pending: Seq<ItemView>,
    i: int,
    next: Seq<NodeView>,
    d0: Seq<NodeView>,
    d1: Seq<ItemView>,
)
    requires
        0 <= i < pending.len(),
        known_plus(nodes, Seq::empty(), next, Seq::empty(), Some(pending[i].id)),
        known_plus(next, pending.remove(i), d0, d1, None),
    ensures
        known_plus(nodes, pending, d0, d1, None),
{
    reveal(known_plus);
    let rest = pending.remove(i);
    assert forall|id: BlockId|
        has_id(d0, id) || waiting(d1, id) <==> has_id(nodes, id) || waiting(pending, id)
            || None::<BlockId> == Some(id) by {
        assert(!waiting(Seq::<ItemView>::empty(), id));
        if waiting(pending, id) {
            let k = choose|k: int| 0 <= k < pending.len() && (#[trigger] pending[k]).id == id;
            if k < i {
                assert(rest[k] == pending[k]);
            } else if k > i {
                assert(rest[k - 1] == pending[k]);
            }
            assert(has_id(next, id) || waiting(rest, id));
        }
        if waiting(rest, id) {
            let k = choose|k: int| 0 <= k < rest.len() && (#[trigger] rest[k]).id == id;
            if k < i {
                assert(pending[k] == rest[k]);
            } else {
                assert(pending[k + 1] == rest[k]);
            }
            assert(waiting(pending, id));
        }
        if id == pending[i].id {
            assert(waiting(pending, id));
        }
    }
}

/// Draining keeps the order well formed, leaves no waiting item ready,
/// and loses nothing: what was integrated stays so, what waited waits or is
/// integrated, and nothing else turns up.
pub proof fn lemma_drain(nodes: Seq<NodeView>, pending: Seq<ItemView>)
    requires
        wf_nodes(nodes),
    ensures
        wf_nodes(drain_spec(nodes, pending).0),
        settled(drain_spec(nodes, pending).0, drain_spec(nodes, pending).1),
        extends(nodes, drain_spec(nodes, pending).0),
        drain_spec(nodes, pending).1.len() <= pending.len(),
        known_plus(nodes, pending, drain_spec(nodes, pending).0, drain_spec(nodes, pending).1, None),
    decreases pending.len(),
{
    let i = first_ready(nodes, pending, 0);
    lemma_first_ready_bound(nodes, pending, 0);
    if 0 <= i < pending.len() {
        let x = pending[i];
        let next = integrate_spec(nodes, x);
        let rest = pending.remove(i);
        lemma_integrate(nodes, x);
        lemma_drain(next, rest);
        let d = drain_spec(next, rest);
        lemma_extends_trans(nodes, next, d.0);
        lemma_known_step(nodes, pending, i, next, d.0, d.1);
    } else {
        lemma_first_ready_none(nodes, pending, 0);
        lemma_extends_refl(nodes);
        assert(known_plus(nodes, pending, nodes, pending, None)) by {
            reveal(known_plus);
        }
    }
}

/// Where no waiting item is ready, draining changes nothing.
pub proof fn lemma_drain_settled(nodes: Seq<NodeView>, pending: Seq<ItemView>)
    requires
        settled(nodes, pending),
    ensures
        drain_spec(nodes, pending) == (nodes, pending),
{
    lemma_first_ready_bound(nodes, pending, 0);
}

/// The store of a view is well formed.
pub open spec fn wf_store(s: StoreView) -> bool {
    wf_nodes(s.nodes) && settled(s.nodes, s.pending) && s.pending.len() <= s.limit
}

proof fn lemma_known_ready(
    nodes: Seq<NodeView>,
    pending: Seq<ItemView>,
    x: BlockId,
    next: Seq<NodeView>,
    d0: Seq<NodeView>,
    d1: Seq<ItemView>,
)
    requires
        known_plus(nodes, Seq::empty(), next, Seq::empty(), Some(x)),
        known_plus(next, pending, d0, d1, None),
    ensures
        known_plus(nodes, pending, d0, d1, Some(x)),
{
    reveal(known_plus);
    assert forall|id: BlockId|
        has_id(d0, id) || waiting(d1, id) <==> has_id(nodes, id) || waiting(pending, id) || Some(x)
            == Some(id) by {
        assert(!waiting(Seq::<ItemView>::empty(), id));
    }
}

proof fn lemma_known_push(nodes: Seq<NodeView>, pending: Seq<ItemView>, x: ItemView)
    requires
        settled(nodes, pending),
        !ready(nodes, x),
    ensures
        known_plus(nodes, pending, nodes, pending.push(x), Some(x.id)),
        settled(nodes, pending.push(x)),
{
    reveal(known_plus);
    let p = pending.push(x);
    assert(p[pending.len() as int].id == x.id);
    assert forall|id: BlockId|
        has_id(nodes, id) || waiting(p, id) <==> has_id(nodes, id) || waiting(pending, id) || Some(
            x.id,
        ) == Some(id) by {
        if waiting(pending, id) {
            let k = choose|k: int| 0 <= k < pending.len() && (#[trigger] pending[k]).id == id;
            assert(p[k].id == id);
        }
        if waiting(p, id) {
            let k = choose|k: int| 0 <= k < p.len() && (#[trigger] p[k]).id == id;
            if k < pending.len() {
                assert(pending[k].id == id);
            }
        }
    }
    assert forall|i: int| 0 <= i < p.len() implies !ready(nodes, #[trigger] p[i]) by {
        if i < pending.len() {
            assert(p[i] == pending[i]);
        }
    }
}

/// `insert` keeps a store well formed and loses nothing; the item is known
/// afterwards unless the store answered with an error, and then the store is
/// unchanged.
pub proof fn lemma_insert(s: StoreView, x: ItemView)
    requires
        wf_store(s),
    ensures
        wf_store(s.insert(x)),
        extends(s.nodes, s.insert(x).nodes),
        s.insert(x).limit == s.limit,
        s.insert_result(x) is Ok ==> known_plus(
            s.nodes,
            s.pending,
            s.insert(x).nodes,
            s.insert(x).pending,
            Some(x.id),
        ),
        s.insert_result(x) is Err ==> s.insert(x) == s,
{
    lemma_extends_refl(s.nodes);
    if s.known(x.id) {
    } else if ready(s.nodes, x) {
        let next = integrate_spec(s.nodes, x);
        lemma_integrate(s.nodes, x);
        lemma_drain(next, s.pending);
        let d = drain_spec(next, s.pending);
        lemma_extends_trans(s.nodes, next, d.0);
        lemma_known_ready(s.nodes, s.pending, x.id, next, d.0, d.1);
    } else if s.pending.len() >= s.limit {
    } else {
        lemma_known_push(s.nodes, s.pending, x);
    }
}

/// An item with this identity waits.
pub open spec fn waiting(pending: Seq<ItemView>, id: BlockId) -> bool {
    exists|i: int| 0 <= i < pending.len() && (#[trigger] pending[i]).id == id
}

/// The index of the first waiting item from `from` on that is ready, or
/// the number of waiting items where none is.
pub open spec fn first_ready(nodes: Seq<NodeView>, pending: Seq<ItemView>, from: int) -> int
    decreases pending.len() - from,
{
    if from < 0 || from >= pending.len() {
        pending.len() as int
    } else if ready(nodes, pending[from]) {
        from
    } else {
        first_ready(nodes, pending, from + 1)
    }
}

/// Integrates waiting items, the first ready one each time, until none is
/// ready.
pub open spec fn drain_spec(nodes: Seq<NodeView>, pending: Seq<ItemView>) -> (
    Seq<NodeView>,
    Seq<ItemView>,
)
    decreases pending.len(),
{
    let i = first_ready(nodes, pending, 0);
    if 0 <= i < pending.len() {
        drain_spec(integrate_spec(nodes, pending[i]), pending.remove(i))
    } else {
        (nodes, pending)
    }
}

/// No waiting item is ready.
pub open spec fn settled(nodes: Seq<NodeView>, pending: Seq<ItemView>) -> bool {
    forall|i: int| 0 <= i < pending.len() ==> !ready(nodes, #[trigger] pending[i])
}

/// Where the search for a ready item runs to the end, none is ready.
pub proof fn lemma_first_ready_none(nodes: Seq<NodeView>, pending: Seq<ItemView>, from: int)
    requires
        0 <= from,
        first_ready(nodes, pending, from) == pending.len(),
    ensures
        forall|i: int| from <= i < pending.len() ==> !ready(nodes, #[trigger] pending[i]),
    decreases pending.len() - from,
{
    if from < pending.len() {
        lemma_first_ready_bound(nodes, pending, from);
        lemma_first_ready_none(nodes, pending, from + 1);
    }
}

/// The search for a ready item ends at a ready item or at the end.
pub proof fn lemma_first_ready_bound(nodes: Seq<NodeView>, pending: Seq<ItemView>, from: int)
    requires
        0 <= from,
    ensures
        from <= first_ready(nodes, pending, from) || first_ready(nodes, pending, from)
            == pending.len(),
        first_ready(nodes, pending, from) <= pending.len(),
        first_ready(nodes, pending, from) < pending.len() ==> ready(
            nodes,
            pending[first_ready(nodes, pending, from)],
        ),
    decreases pending.len() - from,
{
    if from < pending.len() && !ready(nodes, pending[from]) {
        lemma_first_ready_bound(nodes, pending, from + 1);
    }
}

/// `insert` lets at most one more item wait.
pub proof fn lemma_insert_pending(s: StoreView, x: ItemView)
    requires
        wf_store(s),
    ensures
        s.insert(x).pending.len() <= s.pending.len() + 1,
        s.pending.len() < s.limit ==> !(s.insert_result(x) == Err::<(), StoreError>(
            StoreError::PendingFull,
        )),
{
    if !s.known(x.id) && ready(s.nodes, x) {
        lemma_integrate(s.nodes, x);
        lemma_drain(integrate_spec(s.nodes, x), s.pending);
    }
}

/// The node lies below the path `p` in the tree.
pub open spec fn lies_below(n: NodeView, p: Path) -> bool {
    is_prefix(p, n.path) && n.path.len() > p.len()
}

/// The items among the first `n` nodes that lie below `p`, in causal
/// order.
pub open spec fn below_to(nodes: Seq<NodeView>, p: Path, n: int) -> Seq<ItemView>
    decreases n,
{
    if n <= 0 {
        Seq::empty()
    } else if lies_below(nodes[n - 1], p) {
        below_to(nodes, p, n - 1).push(nodes[n - 1].item)
    } else {
        below_to(nodes, p, n - 1)
    }
}

/// The items of the sequence that `root` heads, tombstoned or not, in
/// causal order.
pub open spec fn causal_order(nodes: Seq<NodeView>, root: BlockId) -> Seq<ItemView> {
    below_to(nodes, nodes[index_of(nodes, root)].path, nodes.len() as int)
}

proof fn lemma_below_inside(nodes: Seq<NodeView>, ri: int, j: int)
    requires
        wf_nodes(nodes),
        0 <= ri < j < nodes.len(),
        forall|k: int| ri < k <= j ==> (#[trigger] nodes[k]).path.len() > nodes[ri].path.len(),
    ensures
        lies_below(nodes[j], nodes[ri].path),
    decreases j,
{
    lemma_adjacent(nodes, j);
    if j - 1 > ri {
        lemma_below_inside(nodes, ri, j - 1);
    }
}

proof fn lemma_below_outside(nodes: Seq<NodeView>, ri: int, e: int, j: int)
    requires
        wf_nodes(nodes),
        0 <= ri < nodes.len(),
        0 <= j < nodes.len(),
        j <= ri || (ri < e <= j && nodes[e].path.len() <= nodes[ri].path.len() && forall|k: int|
            ri < k < e ==> (#[trigger] nodes[k]).path.len() > nodes[ri].path.len()),
    ensures
        !lies_below(nodes[j], nodes[ri].path),
{
    let p = nodes[ri].path;
    if lies_below(nodes[j], p) {
        assert(path_lt(p, nodes[j].path));
        if j < ri {
            assert(path_lt(nodes[j].path, nodes[ri].path));
            lemma_path_lt_asym(nodes[j].path, nodes[ri].path);
        } else if j > ri {
            let pe = nodes[e].path;
            assert(node_ok(nodes, e));
            lemma_adjacent(nodes, e);
            if e - 1 > ri {
                lemma_below_inside(nodes, ri, e - 1);
            }
            assert(agree(pe, p, pe.len() - 1));
            assert(path_lt(nodes[ri].path, nodes[e].path));
            lemma_after_subtree(p, pe, nodes[j].path);
            if j > e {
                assert(path_lt(nodes[e].path, nodes[j].path));
                lemma_path_lt_asym(nodes[e].path, nodes[j].path);
            }
        }
    }
}

proof fn lemma_below_skip(nodes: Seq<NodeView>, p: Path, m: int, n: int)
    requires
        0 <= m <= n <= nodes.len(),
        forall|k: int| m <= k < n ==> !lies_below(#[trigger] nodes[k], p),
    ensures
        below_to(nodes, p, n) == below_to(nodes, p, m),
    decreases n,
{
    if m < n {
        lemma_below_skip(nodes, p, m, n - 1);
    }
}

/// Why the store did not take an item.
#[derive(Clone, Copy, Debug, PartialEq, Eq, Structural)]
pub enum StoreError {
    /// An item with this identity is already integrated or waiting.
    Duplicate,
    /// The item has to wait for another, and the waiting room is full.
    PendingFull,
}

/// The integrated items in causal order, and the items that wait.
pub struct BlockStore {
    pub nodes: Vec<Node>,
    pub pending: Vec<Item>,
    pub pending_limit: usize,
}

/// The mathematical value of a [`BlockStore`].
pub ghost struct StoreView {
    pub nodes: Seq<NodeView>,
    pub pending: Seq<ItemView>,
    pub limit: nat,
}

impl StoreView {
    /// An item with this identity is integrated or waits.
    pub open spec fn known(self, id: BlockId) -> bool {
        has_id(self.nodes, id) || waiting(self.pending, id)
    }

    /// What `insert` answers.
    pub open spec fn insert_result(self, x: ItemView) -> Result<(), StoreError> {
        if self.known(x.id) {
            Err(StoreError::Duplicate)
        } else if ready(self.nodes, x) {
            Ok(())
        } else if self.pending.len() >= self.limit {
            Err(StoreError::PendingFull)
        } else {
            Ok(())
        }
    }

    /// The store after `insert`: unchanged on an error; with the item and
    /// every waiting item that it frees integrated, where it is ready; with
    /// the item waiting, where it is not.
    pub open spec fn insert(self, x: ItemView) -> StoreView {
        if self.known(x.id) {
            self
        } else if ready(self.nodes, x) {
            let d = drain_spec(integrate_spec(self.nodes, x), self.pending);
            StoreView { nodes: d.0, pending: d.1, limit: self.limit }
        } else if self.pending.len() >= self.limit {
            self
        } else {
            StoreView { pending: self.pending.push(x), ..self }
        }
    }
}

impl View for BlockStore {
    type V = StoreView;

    open spec fn view(&self) -> StoreView {
        StoreView {
            nodes: nodes_view(self.nodes@),
            pending: items_view(self.pending@),
            limit: self.pending_limit as nat,
        }
    }
}

fn same_origin(a: &Option<BlockId>, b: &Option<BlockId>) -> (r: bool)
    ensures
        r == (*a == *b),
{
    match (a, b) {
        (None, None) => true,
        (Some(x), Some(y)) => x.replica == y.replica && x.clock == y.clock,
        _ => false,
    }
}

fn key_before(ap: u64, aid: BlockId, bp: u64, bid: BlockId) -> (r: bool)
    ensures
        r == key_lt(
            SibKey { prio: ap as nat, replica: aid.replica, clock: aid.clock },
            SibKey { prio: bp as nat, replica: bid.replica, clock: bid.clock },
        ),
{
    ap > bp || (ap == bp && (aid.replica < bid.replica || (aid.replica == bid.replica && aid.clock
        < bid.clock)))
}

impl BlockStore {
    /// The order is well formed and every node knows its level.
    pub open spec fn step_wf(&self) -> bool {
        &&& wf_nodes(self@.nodes)
        &&& forall|i: int|
            0 <= i < self.nodes.len() ==> (#[trigger] self.nodes[i]).level + 1
                == self.nodes[i].path@.len()
    }

    /// The store is well formed, no waiting item is ready, and the
    /// waiting room holds no more than its limit.
    pub open spec fn wf(&self) -> bool {
        self.step_wf() && settled(self@.nodes, self@.pending) && self.pending.len()
            <= self.pending_limit
    }

    /// An empty store whose waiting room holds up to `pending_limit` items.
    pub fn new(pending_limit: usize) -> (r: BlockStore)
        ensures
            r.wf(),
            r@.nodes.len() == 0,
            r@.pending.len() == 0,
            r@.limit == pending_limit,
    {
        BlockStore { nodes: Vec::new(), pending: Vec::new(), pending_limit }
    }

    /// The first index at which an item with this identity is integrated.
    pub fn find(&self, id: BlockId) -> (r: Option<usize>)
        ensures
            match r {
                Some(i) => i < self.nodes.len() && self@.nodes[i as int].item.id == id && forall|
                    j: int,
                |
                    0 <= j < i ==> (#[trigger] self@.nodes[j]).item.id != id,
                None => !has_id(self@.nodes, id),
            },
    {
        let mut i: usize = 0;
        while i < self.nodes.len()
            invariant
                i <= self.nodes.len(),
                forall|j: int| 0 <= j < i ==> (#[trigger] self@.nodes[j]).item.id != id,
            decreases self.nodes.len() - i,
        {
            if self.nodes[i].item.id.replica == id.replica && self.nodes[i].item.id.clock
                == id.clock {
                return Some(i);
            }
            i += 1;
        }
        None
    }

    /// Whether a tombstone for this identity is integrated.
    fn is_targeted(&self, id: BlockId) -> (r: bool)
        ensures
            r == targeted(self@.nodes, id),
    {
        let mut i: usize = 0;
        while i < self.nodes.len()
            invariant
                i <= self.nodes.len(),
                forall|j: int|
                    0 <= j < i ==> (#[trigger] self@.nodes[j]).item.content != ContentView::Delete(
                        id,
                    ),
            decreases self.nodes.len() - i,
        {
            match &self.nodes[i].item.content {
                Content::Delete(t) => {
                    if t.replica == id.replica && t.clock == id.clock {
                        assert(self@.nodes[i as int].item.content == ContentView::Delete(id));
                        return true;
                    }
                },
                _ => {},
            }
            i += 1;
        }
        false
    }

    /// Whether the item can be integrated now.
    pub fn is_ready(&self, x: &Item) -> (r: bool)
        ensures
            r == ready(self@.nodes, x@),
    {
        if self.find(x.id).is_some() {
            return false;
        }
        if x.id.clock == u64::MAX {
            return false;
        }
        if x.id.clock > 0 {
            if self.find(BlockId { replica: x.id.replica, clock: x.id.clock - 1 }).is_none() {
                return false;
            }
        }
        match x.left {
            Some(l) => {
                if self.find(l).is_none() {
                    return false;
                }
            },
            None => {},
        }
        match x.right {
            Some(r) => {
                if self.find(r).is_none() {
                    return false;
                }
            },
            None => {},
        }
        true
    }

    /// The place in the order of a new child of the node before `start`
    /// (of a new head, where `start` is 0).
    fn find_slot(
        &self,
        start: usize,
        level: usize,
        prio: u64,
        id: BlockId,
        Ghost(parent): Ghost<Path>,
    ) -> (pos: usize)
        requires
            self.step_wf(),
            !has_id(self@.nodes, id),
            parent.len() == level,
            start <= self.nodes.len(),
            start == 0 ==> level == 0,
            start > 0 ==> self@.nodes[start - 1].path == parent,
        ensures
            splits_at(
                self@.nodes,
                parent.push(SibKey { prio: prio as nat, replica: id.replica, clock: id.clock }),
                pos as int,
            ),
    {
        let ghost nodes = self@.nodes;
        let ghost kx = SibKey { prio: prio as nat, replica: id.replica, clock: id.clock };
        let ghost px = parent.push(kx);
        let mut pos: usize = start;
        let mut done: bool = false;
        while !done && pos < self.nodes.len()
            invariant
                self.step_wf(),
                nodes == self@.nodes,
                !has_id(nodes, id),
                parent.len() == level,
                px == parent.push(kx),
                kx == (SibKey { prio: prio as nat, replica: id.replica, clock: id.clock }),
                start <= pos <= self.nodes.len(),
                start == 0 ==> level == 0,
                start > 0 ==> nodes[start - 1].path == parent,
                forall|j: int|
                    start <= j < pos ==> is_prefix(parent, (#[trigger] nodes[j]).path)
                        && nodes[j].path.len() > level && key_lt(nodes[j].path[level as int], kx),
                done ==> pos < self.nodes.len() && path_lt(px, nodes[pos as int].path),
            decreases self.nodes.len() - pos + (if done { 0int } else { 1int }),
        {
            let z = &self.nodes[pos];
            let ghost pz = nodes[pos as int].path;
            proof {
                assert(node_ok(nodes, pos as int));
                assert(nodes[pos as int] == self.nodes[pos as int]@);
                if pos > 0 {
                    lemma_adjacent(nodes, pos as int);
                    if pos > start {
                        assert(is_prefix(parent, nodes[pos - 1].path));
                    }
                }
            }
            if z.level < level {
                proof {
                    assert(agree(pz, parent, pz.len() - 1));
                    assert(path_lt(nodes[start - 1].path, nodes[pos as int].path));
                    lemma_after_subtree(parent, pz, px);
                }
                done = true;
            } else if z.level == level {
                proof {
                    assert(is_prefix(parent, pz));
                    assert(pz[level as int] == key_of(nodes[pos as int]));
                }
                if key_before(z.prio, z.item.id, prio, id) {
                    pos += 1;
                } else {
                    proof {
                        assert(nodes[pos as int].item.id != id);
                        assert(key_lt(kx, pz[level as int]));
                        lemma_branch(parent, px, pz);
                    }
                    done = true;
                }
            } else {
                proof {
                    assert(pos > start);
                    let a = nodes[pos - 1].path;
                    assert(is_prefix(parent, pz));
                    assert(pz[level as int] == a[level as int]);
                }
                pos += 1;
            }
        }
        proof {
            assert forall|j: int| 0 <= j < pos implies path_lt((#[trigger] nodes[j]).path, px) by {
                if j < start {
                    assert(is_prefix(parent, px));
                    assert(path_lt(parent, px));
                    if j < start - 1 {
                        assert(path_lt(nodes[j].path, nodes[start - 1].path));
                        lemma_path_lt_trans(nodes[j].path, parent, px);
                    }
                } else {
                    lemma_branch(parent, nodes[j].path, px);
                }
            }
            assert forall|j: int| pos <= j < nodes.len() implies path_lt(
                px,
                (#[trigger] nodes[j]).path,
            ) by {
                if j > pos {
                    assert(path_lt(nodes[pos as int].path, nodes[j].path));
                    lemma_path_lt_trans(px, nodes[pos as int].path, nodes[j].path);
                }
            }
        }
        pos
    }

    /// Integrates a ready item at its place in the causal order; a tombstone
    /// flags its target.
    fn integrate(&mut self, x: Item)
        requires
            old(self).step_wf(),
            ready(old(self)@.nodes, x@),
        ensures
            final(self).step_wf(),
            final(self)@.nodes == integrate_spec(old(self)@.nodes, x@),
            final(self).pending == old(self).pending,
            final(self).pending_limit == old(self).pending_limit,
    {
        let ghost nodes = self@.nodes;
        let ghost xv = x@;
        let mut start: usize = 0;
        let mut level: usize = 0;
        let ghost mut parent: Path = Seq::empty();
        match x.left {
            Some(l) => {
                match self.find(l) {
                    Some(li) => {
                        proof {
                            lemma_index_of(nodes, li as int);
                            assert(node_ok(nodes, li as int));
                            parent = nodes[li as int].path;
                        }
                        start = li + 1;
                        level = self.nodes[li].level + 1;
                    },
                    None => {},
                }
            },
            None => {},
        }
        let mut prio: u64 = 0;
        match x.right {
            Some(r) => {
                match self.find(r) {
                    Some(ri) => {
                        proof {
                            lemma_index_of(nodes, ri as int);
                            assert(node_ok(nodes, ri as int));
                            assert(self.nodes[ri as int]@ == nodes[ri as int]);
                        }
                        if same_origin(&self.nodes[ri].item.left, &x.left) {
                            prio = self.nodes[ri].prio + 1;
                        }
                    },
                    None => {},
                }
            },
            None => {},
        }
        let deleted = self.is_targeted(x.id);
        let pos = self.find_slot(start, level, prio, x.id, Ghost(parent));
        let target: Option<BlockId> = match &x.content {
            Content::Delete(t) => Some(*t),
            _ => None,
        };
        let ghost key = SibKey { prio: prio as nat, replica: x.id.replica, clock: x.id.clock };
        let node = Node { item: x, deleted, level, prio, path: Ghost(parent.push(key)) };
        assert(node@ == node_for(nodes, xv));
        proof {
            lemma_integrate_wf(nodes, xv, pos as int);
        }
        self.nodes.insert(pos, node);
        let ghost mid = nodes.insert(pos as int, node_for(nodes, xv));
        assert(self@.nodes =~= mid);
        match target {
            Some(t) => {
                match self.find(t) {
                    Some(ti) => {
                        self.nodes[ti].deleted = true;
                        proof {
                            let fin = mark(mid, xv);
                            assert forall|k: int| 0 <= k < fin.len() implies self@.nodes[k]
                                == fin[k] by {
                                if k != ti && mid[k].item.id == t {
                                    if k != pos && ti != pos {
                                        let a = before_insert(pos as int, k);
                                        let b = before_insert(pos as int, ti as int);
                                        assert(mid[k] == nodes[a]);
                                        assert(mid[ti as int] == nodes[b]);
                                        if a < b {
                                            assert(nodes[a].item.id != nodes[b].item.id);
                                        } else {
                                            assert(nodes[b].item.id != nodes[a].item.id);
                                        }
                                    } else if k == pos {
                                        let b = before_insert(pos as int, ti as int);
                                        assert(mid[ti as int] == nodes[b]);
                                        assert(nodes[b].item.id != xv.id);
                                    } else {
                                        let a = before_insert(pos as int, k);
                                        assert(mid[k] == nodes[a]);
                                        assert(nodes[a].item.id != xv.id);
                                    }
                                }
                            }
                            assert(self@.nodes =~= fin);
                        }
                    },
                    None => {
                        assert(self@.nodes =~= mark(mid, xv));
                    },
                }
            },
            None => {},
        }
        proof {
            let fin = integrate_spec(nodes, xv);
            assert forall|i: int| 0 <= i < self.nodes.len() implies (#[trigger] self.nodes[i]).level
                + 1 == self.nodes[i].path@.len() by {
                assert(self.nodes[i]@ == fin[i]);
            }
        }
    }

    /// Integrates waiting items until none is ready.
    fn drain(&mut self)
        requires
            old(self).step_wf(),
            old(self).pending.len() <= old(self).pending_limit,
        ensures
            final(self).wf(),
            (final(self)@.nodes, final(self)@.pending) == drain_spec(
                old(self)@.nodes,
                old(self)@.pending,
            ),
            final(self).pending_limit == old(self).pending_limit,
    {
        let mut more: bool = true;
        while more
            invariant
                self.step_wf(),
                self.pending_limit == old(self).pending_limit,
                self.pending.len() <= self.pending_limit,
                drain_spec(self@.nodes, self@.pending) == drain_spec(
                    old(self)@.nodes,
                    old(self)@.pending,
                ),
                !more ==> first_ready(self@.nodes, self@.pending, 0) == self@.pending.len(),
            decreases self.pending.len() + (if more { 1int } else { 0int }),
        {
            let mut i: usize = 0;
            while i < self.pending.len() && !self.is_ready(&self.pending[i])
                invariant
                    i <= self.pending.len(),
                    first_ready(self@.nodes, self@.pending, 0) == first_ready(
                        self@.nodes,
                        self@.pending,
                        i as int,
                    ),
                decreases self.pending.len() - i,
            {
                i += 1;
            }
            if i < self.pending.len() {
                let ghost before = self@.pending;
                let x = self.pending.remove(i);
                assert(self@.pending =~= before.remove(i as int));
                assert(x@ == before[i as int]);
                self.integrate(x);
            } else {
                more = false;
            }
        }
        proof {
            lemma_first_ready_none(self@.nodes, self@.pending, 0);
        }
    }

    /// Takes an item: integrates it, with every waiting item that it frees,
    /// where what it depends on is integrated; else lets it wait.
    pub fn insert(&mut self, x: Item) -> (r: Result<(), StoreError>)
        requires
            old(self).wf(),
        ensures
            final(self).wf(),
            r == old(self)@.insert_result(x@),
            final(self)@ == old(self)@.insert(x@),
            extends(old(self)@.nodes, final(self)@.nodes),
    {
        proof {
            lemma_insert(self@, x@);
        }
        if self.find(x.id).is_some() || self.is_waiting(x.id) {
            return Err(StoreError::Duplicate);
        }
        if self.is_ready(&x) {
            self.integrate(x);
            self.drain();
            Ok(())
        } else if self.pending.len() >= self.pending_limit {
            Err(StoreError::PendingFull)
        } else {
            let ghost before = self@.pending;
            self.pending.push(x);
            assert(self@.pending =~= before.push(x@));
            assert(self@.nodes == old(self)@.nodes);
            Ok(())
        }
    }

    /// Whether an item with this identity waits.
    pub fn is_waiting(&self, id: BlockId) -> (r: bool)
        ensures
            r == waiting(self@.pending, id),
    {
        let mut i: usize = 0;
        while i < self.pending.len()
            invariant
                i <= self.pending.len(),
                forall|j: int| 0 <= j < i ==> (#[trigger] self@.pending[j]).id != id,
            decreases self.pending.len() - i,
        {
            if self.pending[i].id.replica == id.replica && self.pending[i].id.clock == id.clock {
                assert(self@.pending[i as int].id == id);
                return true;
            }
            i += 1;
        }
        false
    }

    /// The integrated item with this identity.
    pub fn get(&self, id: BlockId) -> (r: Option<Item>)
        requires
            self.wf(),
        ensures
            match r {
                Some(item) => has_id(self@.nodes, id) && item@ == self@.nodes[index_of(
                    self@.nodes,
                    id,
                )].item,
                None => !has_id(self@.nodes, id),
            },
    {
        match self.find(id) {
            Some(i) => {
                proof {
                    lemma_index_of(self@.nodes, i as int);
                }
                Some(self.nodes[i].item.cloned())
            },
            None => None,
        }
    }

    /// Whether the item with this identity is integrated and tombstoned.
    pub fn is_deleted(&self, id: BlockId) -> (r: bool)
        requires
            self.wf(),
        ensures
            r == (has_id(self@.nodes, id) && self@.nodes[index_of(self@.nodes, id)].deleted),
    {
        match self.find(id) {
            Some(i) => {
                proof {
                    lemma_index_of(self@.nodes, i as int);
                }
                self.nodes[i].deleted
            },
            None => false,
        }
    }

    /// The items of the sequence that `root` heads, tombstoned or not, in
    /// causal order; `None` where no item with this identity is integrated.
    pub fn iter_causal_order(&self, root: BlockId) -> (r: Option<Vec<Item>>)
        requires
            self.wf(),
        ensures
            match r {
                Some(items) => has_id(self@.nodes, root) && items_view(items@) == causal_order(
                    self@.nodes,
                    root,
                ),
                None => !has_id(self@.nodes, root),
            },
    {
        let ri = match self.find(root) {
            None => {
                return None;
            },
            Some(ri) => ri,
        };
        let ghost nodes = self@.nodes;
        let ghost p = nodes[ri as int].path;
        proof {
            lemma_index_of(nodes, ri as int);
            assert forall|k: int| 0 <= k < ri + 1 implies !lies_below(#[trigger] nodes[k], p) by {
                lemma_below_outside(nodes, ri as int, 0, k);
            }
            lemma_below_skip(nodes, p, 0, ri + 1);
            assert(self.nodes[ri as int]@ == nodes[ri as int]);
        }
        let level = self.nodes[ri].level;
        let mut out: Vec<Item> = Vec::new();
        let mut j: usize = ri + 1;
        assert(items_view(out@) =~= below_to(nodes, p, j as int));
        while j < self.nodes.len() && self.nodes[j].level > level
            invariant
                self.wf(),
                nodes == self@.nodes,
                p == nodes[ri as int].path,
                level + 1 == p.len(),
                ri < j <= nodes.len(),
                forall|k: int| ri < k < j ==> (#[trigger] nodes[k]).path.len() > p.len(),
                items_view(out@) == below_to(nodes, p, j as int),
            decreases self.nodes.len() - j,
        {
            let ghost before = items_view(out@);
            proof {
                assert(self.nodes[j as int]@ == nodes[j as int]);
                lemma_below_inside(nodes, ri as int, j as int);
            }
            out.push(self.nodes[j].item.cloned());
            assert(items_view(out@) =~= before.push(nodes[j as int].item));
            j += 1;
        }
        proof {
            assert forall|k: int| j <= k < nodes.len() implies !lies_below(
                #[trigger] nodes[k],
                p,
            ) by {
                assert(self.nodes[j as int]@ == nodes[j as int]);
                lemma_below_outside(nodes, ri as int, j as int, k);
            }
            lemma_below_skip(nodes, p, j as int, nodes.len() as int);
        }
        Some(out)
    }
}

} // verus!
