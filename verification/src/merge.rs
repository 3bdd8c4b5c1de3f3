//! Merging commutes: two batches that two replicas wrote on their own come
//! to the same order, whichever is applied first.

use crate::doc::{integrate_all, steady};
use crate::item::{BlockId, ContentView, ItemView};
use crate::order::{lemma_path_lt_asym, path_lt};
use crate::shared::{
    elements, head_key, left_index, lemma_clock_bound, lemma_visible_shows, local_head, next_clock,
    tombstones, valid_type, written, TypeRef,
};
use crate::item::TypeKind;
use crate::store::{
    before_insert, has_id, index_of, integrate_spec, known_plus, lemma_drain_settled,
    lemma_index_of, lemma_integrate, lemma_integrate_wf, lemma_slot, mark, node_for, parent_path,
    prio_for, ready, settled, source, targeted, waiting, wf_nodes, NodeView, StoreView,
};
use crate::store::{node_ok, wf_store};
use crate::sync::apply_spec;
use vstd::prelude::*;

verus! {

/// A store that holds nothing.
pub open spec fn empty_store(limit: nat) -> StoreView {
    StoreView { nodes: Seq::empty(), pending: Seq::empty(), limit }
}

/// The `k`-th item that a replica writes on its own: it bears the
/// replica's `k`-th identity, and speaks only of items that the replica
/// wrote before.
pub open spec fn own_item(x: ItemView, replica: u64, k: int) -> bool {
    &&& x.id == BlockId { replica, clock: k as u64 }
    &&& x.left is Some ==> x.left->Some_0.replica == replica && x.left->Some_0.clock < k
    &&& x.right is Some ==> x.right->Some_0.replica == replica && x.right->Some_0.clock < k
    &&& x.content is Delete ==> x.content->Delete_0.replica == replica
        && x.content->Delete_0.clock < k
}

/// A batch that a replica wrote on its own, from its first item on.
pub open spec fn own_batch(items: Seq<ItemView>, replica: u64) -> bool {
    &&& items.len() < u64::MAX
    &&& forall|k: int| 0 <= k < items.len() ==> own_item(#[trigger] items[k], replica, k)
}

/// The order holds no item of the replica and no tombstone for one.
pub open spec fn foreign(base: Seq<NodeView>, replica: u64) -> bool {
    forall|i: int|
        0 <= i < base.len() ==> (#[trigger] base[i]).item.id.replica != replica && !(
        base[i].item.content is Delete && base[i].item.content->Delete_0.replica == replica)
}

/// The node stands in the order.
pub open spec fn holds(n: NodeView, b: Seq<NodeView>) -> bool {
    exists|j: int| 0 <= j < b.len() && #[trigger] b[j] == n
}

/// Every node of `a` stands in `b`.
#[verifier::opaque]
pub open spec fn within(a: Seq<NodeView>, b: Seq<NodeView>) -> bool {
    forall|i: int| 0 <= i < a.len() ==> holds(#[trigger] a[i], b)
}

/// Every node of `s` stands in `a` or in `b`.
#[verifier::opaque]
pub open spec fn covered(s: Seq<NodeView>, a: Seq<NodeView>, b: Seq<NodeView>) -> bool {
    forall|i: int| 0 <= i < s.len() ==> holds(#[trigger] s[i], a) || holds(s[i], b)
}

/// The order holds the identities of `base` and the first `k` of the
/// replica.
#[verifier::opaque]
pub open spec fn ids_are(nodes: Seq<NodeView>, base: Seq<NodeView>, replica: u64, k: int) -> bool {
    forall|id: BlockId|
        has_id(nodes, id) <==> has_id(base, id) || (id.replica == replica && id.clock < k)
}

/// Every node holds one of the first `k` items of the batch.
#[verifier::opaque]
pub open spec fn from_batch(nodes: Seq<NodeView>, u: Seq<ItemView>, k: int) -> bool {
    forall|i: int|
        0 <= i < nodes.len() ==> exists|j: int|
            0 <= j < k && j < u.len() && (#[trigger] nodes[i]).item == #[trigger] u[j]
}

/// The node as it is once `x` is integrated: flagged where `x` is its
/// tombstone.
pub open spec fn marked(m: NodeView, x: ItemView) -> NodeView {
    if x.content is Delete && m.item.id == x.content->Delete_0 {
        NodeView { deleted: true, ..m }
    } else {
        m
    }
}

proof fn lemma_shape_exact(nodes: Seq<NodeView>, x: ItemView, pos: int, n: NodeView)
    requires
        0 <= pos <= nodes.len(),
    ensures
        mark(nodes.insert(pos, n), x).len() == nodes.len() + 1,
        forall|q: int|
            0 <= q <= nodes.len() ==> #[trigger] mark(nodes.insert(pos, n), x)[q] == marked(
                source(nodes, pos, n, q),
                x,
            ),
{
    let mid = nodes.insert(pos, n);
    let fin = mark(mid, x);
    assert(fin.len() == mid.len());
    assert forall|q: int| 0 <= q <= nodes.len() implies #[trigger] fin[q] == marked(
        source(nodes, pos, n, q),
        x,
    ) by {
        assert(mid[q] == source(nodes, pos, n, q));
    }
}

/// Where every node of `a` stands in `b`, this still holds once the same
/// node is put into both and the same tombstone is marked in both.
proof fn lemma_step_within(
    a: Seq<NodeView>,
    b: Seq<NodeView>,
    x: ItemView,
    pa: int,
    pb: int,
    n: NodeView,
)
    requires
        within(a, b),
        0 <= pa <= a.len(),
        0 <= pb <= b.len(),
    ensures
        within(mark(a.insert(pa, n), x), mark(b.insert(pb, n), x)),
{
    reveal(within);
    let a2 = mark(a.insert(pa, n), x);
    let b2 = mark(b.insert(pb, n), x);
    lemma_shape_exact(a, x, pa, n);
    lemma_shape_exact(b, x, pb, n);
    assert forall|q: int| 0 <= q < a2.len() implies holds(#[trigger] a2[q], b2) by {
        if q == pa {
            assert(b2[pb] == marked(source(b, pb, n, pb), x));
            assert(b2[pb] == a2[q]);
        } else {
            let o = before_insert(pa, q);
            assert(holds(a[o], b));
            let j = choose|j: int| 0 <= j < b.len() && #[trigger] b[j] == a[o];
            let j2 = if j < pb {
                j
            } else {
                j + 1
            };
            assert(b2[j2] == marked(source(b, pb, n, j2), x));
            assert(b2[j2] == a2[q]);
        }
    }
}

/// The nodes of a foreign order stay as they are when the replica's
/// item is integrated.
proof fn lemma_step_base(
    base: Seq<NodeView>,
    s: Seq<NodeView>,
    x: ItemView,
    pos: int,
    n: NodeView,
    replica: u64,
)
    requires
        within(base, s),
        foreign(base, replica),
        0 <= pos <= s.len(),
        x.content is Delete ==> x.content->Delete_0.replica == replica,
    ensures
        within(base, mark(s.insert(pos, n), x)),
{
    reveal(within);
    let s2 = mark(s.insert(pos, n), x);
    lemma_shape_exact(s, x, pos, n);
    assert forall|i: int| 0 <= i < base.len() implies holds(#[trigger] base[i], s2) by {
        assert(holds(base[i], s));
        let j = choose|j: int| 0 <= j < s.len() && #[trigger] s[j] == base[i];
        let j2 = if j < pos {
            j
        } else {
            j + 1
        };
        assert(s2[j2] == marked(source(s, pos, n, j2), x));
        assert(s2[j2] == base[i]);
    }
}

proof fn lemma_step_covered(
    s: Seq<NodeView>,
    e: Seq<NodeView>,
    base: Seq<NodeView>,
    x: ItemView,
    ps: int,
    pe: int,
    n: NodeView,
    replica: u64,
)
    requires
        covered(s, e, base),
        foreign(base, replica),
        0 <= ps <= s.len(),
        0 <= pe <= e.len(),
        x.content is Delete ==> x.content->Delete_0.replica == replica,
    ensures
        covered(mark(s.insert(ps, n), x), mark(e.insert(pe, n), x), base),
{
    reveal(covered);
    let s2 = mark(s.insert(ps, n), x);
    let e2 = mark(e.insert(pe, n), x);
    lemma_shape_exact(s, x, ps, n);
    lemma_shape_exact(e, x, pe, n);
    assert forall|q: int| 0 <= q < s2.len() implies holds(#[trigger] s2[q], e2) || holds(
        s2[q],
        base,
    ) by {
        if q == ps {
            assert(e2[pe] == marked(source(e, pe, n, pe), x));
            assert(e2[pe] == s2[q]);
        } else {
            let o = before_insert(ps, q);
            assert(holds(s[o], e) || holds(s[o], base));
            if holds(s[o], e) {
                let j = choose|j: int| 0 <= j < e.len() && #[trigger] e[j] == s[o];
                let j2 = if j < pe {
                    j
                } else {
                    j + 1
                };
                assert(e2[j2] == marked(source(e, pe, n, j2), x));
                assert(e2[j2] == s2[q]);
            } else {
                let j = choose|j: int| 0 <= j < base.len() && #[trigger] base[j] == s[o];
                assert(base[j] == s2[q]);
            }
        }
    }
}

proof fn lemma_step_from(e: Seq<NodeView>, u: Seq<ItemView>, k: int, pos: int, n: NodeView)
    requires
        from_batch(e, u, k),
        0 <= k < u.len(),
        0 <= pos <= e.len(),
        n.item == u[k],
    ensures
        from_batch(mark(e.insert(pos, n), u[k]), u, k + 1),
{
    reveal(from_batch);
    let x = u[k];
    let e2 = mark(e.insert(pos, n), x);
    lemma_shape_exact(e, x, pos, n);
    assert forall|q: int| 0 <= q < e2.len() implies exists|j: int|
        0 <= j < k + 1 && j < u.len() && (#[trigger] e2[q]).item == #[trigger] u[j] by {
        assert(e2[q] == marked(source(e, pos, n, q), x));
        if q == pos {
            assert(e2[q].item == u[k]);
        } else {
            let o = before_insert(pos, q);
            let j = choose|j: int| 0 <= j < k && j < u.len() && (#[trigger] e[o]).item == #[trigger] u[j];
            assert(e2[q].item == u[j]);
        }
    }
}

proof fn lemma_step_ids(
    nodes: Seq<NodeView>,
    base: Seq<NodeView>,
    replica: u64,
    k: int,
    x: ItemView,
)
    requires
        wf_nodes(nodes),
        ready(nodes, x),
        ids_are(nodes, base, replica, k),
        x.id == (BlockId { replica, clock: k as u64 }),
        0 <= k < u64::MAX,
    ensures
        ids_are(integrate_spec(nodes, x), base, replica, k + 1),
{
    reveal(ids_are);
    reveal(known_plus);
    lemma_integrate(nodes, x);
    let fin = integrate_spec(nodes, x);
    assert forall|id: BlockId|
        has_id(fin, id) <==> has_id(base, id) || (id.replica == replica && id.clock < k + 1) by {
        assert(!waiting(Seq::<ItemView>::empty(), id));
        assert(has_id(fin, id) <==> has_id(nodes, id) || Some(x.id) == Some(id));
    }
}

/// The next item of the replica's own batch is ready.
proof fn lemma_step_ready(
    nodes: Seq<NodeView>,
    base: Seq<NodeView>,
    u: Seq<ItemView>,
    replica: u64,
    k: int,
)
    requires
        ids_are(nodes, base, replica, k),
        foreign(base, replica),
        own_batch(u, replica),
        0 <= k < u.len(),
    ensures
        ready(nodes, u[k]),
{
    reveal(ids_are);
    let x = u[k];
    assert(own_item(x, replica, k));
    if has_id(base, x.id) {
        let i = index_of(base, x.id);
        assert(base[i].item.id.replica != replica);
    }
}

/// The node that the item becomes is the same over a foreign order as
/// over none, and bears no tombstone.
proof fn lemma_step_node(
    e: Seq<NodeView>,
    s: Seq<NodeView>,
    base: Seq<NodeView>,
    u: Seq<ItemView>,
    replica: u64,
    k: int,
)
    requires
        wf_nodes(e),
        wf_nodes(s),
        within(e, s),
        covered(s, e, base),
        from_batch(e, u, k),
        foreign(base, replica),
        own_batch(u, replica),
        0 <= k < u.len(),
        ready(e, u[k]),
        ready(s, u[k]),
    ensures
        node_for(e, u[k]) == node_for(s, u[k]),
        !node_for(e, u[k]).deleted,
{
    reveal(within);
    reveal(covered);
    reveal(from_batch);
    let x = u[k];
    assert(own_item(x, replica, k));
    // the origins stand in both orders as the same nodes
    if x.left is Some {
        let l = x.left->Some_0;
        let i = index_of(e, l);
        assert(holds(e[i], s));
        let j = choose|j: int| 0 <= j < s.len() && #[trigger] s[j] == e[i];
        lemma_index_of(s, j);
        assert(parent_path(e, x.left) == parent_path(s, x.left));
    }
    if x.right is Some {
        let r = x.right->Some_0;
        let i = index_of(e, r);
        assert(holds(e[i], s));
        let j = choose|j: int| 0 <= j < s.len() && #[trigger] s[j] == e[i];
        lemma_index_of(s, j);
        assert(prio_for(e, x) == prio_for(s, x));
    }
    // no tombstone names the item yet
    if targeted(e, x.id) {
        let i = choose|i: int|
            0 <= i < e.len() && (#[trigger] e[i]).item.content == ContentView::Delete(x.id);
        let j = choose|j: int| 0 <= j < k && j < u.len() && (#[trigger] e[i]).item == #[trigger] u[j];
        assert(own_item(u[j], replica, j));
    }
    if targeted(s, x.id) {
        let i = choose|i: int|
            0 <= i < s.len() && (#[trigger] s[i]).item.content == ContentView::Delete(x.id);
        assert(holds(s[i], e) || holds(s[i], base));
        if holds(s[i], e) {
            let m = choose|m: int| 0 <= m < e.len() && #[trigger] e[m] == s[i];
            assert(e[m].item.content == ContentView::Delete(x.id));
            assert(targeted(e, x.id));
        } else {
            let m = choose|m: int| 0 <= m < base.len() && #[trigger] base[m] == s[i];
            assert(base[m].item.content is Delete);
        }
    }
}

/// What holds after the first `k` items of a replica's own batch are
/// integrated over a foreign order `base` and, beside it, over none.
pub open spec fn run_holds(base: Seq<NodeView>, u: Seq<ItemView>, replica: u64, k: int) -> bool {
    let e = integrate_all(Seq::empty(), u.subrange(0, k));
    let s = integrate_all(base, u.subrange(0, k));
    &&& wf_nodes(e)
    &&& wf_nodes(s)
    &&& within(e, s)
    &&& within(base, s)
    &&& covered(s, e, base)
    &&& from_batch(e, u, k)
    &&& ids_are(e, Seq::empty(), replica, k)
    &&& ids_are(s, base, replica, k)
}

proof fn lemma_integrate_all_step(nodes: Seq<NodeView>, u: Seq<ItemView>, k: int)
    requires
        0 <= k < u.len(),
    ensures
        integrate_all(nodes, u.subrange(0, k + 1)) == integrate_spec(
            integrate_all(nodes, u.subrange(0, k)),
            u[k],
        ),
{
    let t = u.subrange(0, k + 1);
    assert(t.drop_last() =~= u.subrange(0, k));
    assert(t.last() == u[k]);
}

/// The nodes that a replica's own batch becomes are the same over a
/// foreign order as over none.
pub proof fn lemma_own_run(base: Seq<NodeView>, u: Seq<ItemView>, replica: u64, k: int)
    requires
        wf_nodes(base),
        foreign(base, replica),
        own_batch(u, replica),
        0 <= k <= u.len(),
    ensures
        run_holds(base, u, replica, k),
    decreases k,
{
    if k == 0 {
        let none = Seq::<NodeView>::empty();
        assert(u.subrange(0, 0) =~= Seq::<ItemView>::empty());
        assert(integrate_all(none, u.subrange(0, 0)) == none);
        assert(integrate_all(base, u.subrange(0, 0)) == base);
        assert(within(none, base)) by {
            reveal(within);
        }
        assert(within(base, base)) by {
            reveal(within);
        }
        assert(covered(base, none, base)) by {
            reveal(covered);
        }
        assert(from_batch(none, u, 0)) by {
            reveal(from_batch);
        }
        assert(ids_are(none, none, replica, 0)) by {
            reveal(ids_are);
        }
        assert(ids_are(base, base, replica, 0)) by {
            reveal(ids_are);
        }
        assert(foreign(none, replica));
    } else {
        lemma_own_run(base, u, replica, k - 1);
        let none = Seq::<NodeView>::empty();
        let e = integrate_all(none, u.subrange(0, k - 1));
        let s = integrate_all(base, u.subrange(0, k - 1));
        let x = u[k - 1];
        lemma_integrate_all_step(none, u, k - 1);
        lemma_integrate_all_step(base, u, k - 1);
        assert(own_item(x, replica, k - 1));
        lemma_step_ready(e, none, u, replica, k - 1);
        lemma_step_ready(s, base, u, replica, k - 1);
        lemma_step_node(e, s, base, u, replica, k - 1);
        let n = node_for(e, x);
        let pe = lemma_slot(e, x);
        let ps = lemma_slot(s, x);
        lemma_integrate_wf(e, x, pe);
        lemma_integrate_wf(s, x, ps);
        lemma_step_within(e, s, x, pe, ps, n);
        lemma_step_base(base, s, x, ps, n, replica);
        lemma_step_covered(s, e, base, x, ps, pe, n, replica);
        lemma_step_from(e, u, k - 1, pe, n);
        lemma_step_ids(e, none, replica, k - 1, x);
        lemma_step_ids(s, base, replica, k - 1, x);
    }
}

/// Where the node stands in a well-formed order.
pub open spec fn place(b: Seq<NodeView>, n: NodeView) -> int {
    choose|j: int| 0 <= j < b.len() && #[trigger] b[j] == n
}

proof fn lemma_place_rises(a: Seq<NodeView>, b: Seq<NodeView>, i: int)
    requires
        wf_nodes(a),
        wf_nodes(b),
        within(a, b),
        0 <= i < a.len(),
    ensures
        i <= place(b, a[i]) < b.len(),
        b[place(b, a[i])] == a[i],
    decreases i,
{
    reveal(within);
    assert(holds(a[i], b));
    if i > 0 {
        lemma_place_rises(a, b, i - 1);
        let p = place(b, a[i - 1]);
        let q = place(b, a[i]);
        assert(path_lt(a[i - 1].path, a[i].path));
        if q < p {
            assert(path_lt(b[q].path, b[p].path));
            lemma_path_lt_asym(b[q].path, b[p].path);
        } else if q == p {
            lemma_path_lt_asym(a[i - 1].path, a[i].path);
        }
    }
}

/// Two well-formed orders that hold the same nodes are the same order.
pub proof fn lemma_same_nodes(a: Seq<NodeView>, b: Seq<NodeView>)
    requires
        wf_nodes(a),
        wf_nodes(b),
        within(a, b),
        within(b, a),
    ensures
        a == b,
{
    if a.len() > 0 {
        lemma_place_rises(a, b, a.len() - 1);
    }
    if b.len() > 0 {
        lemma_place_rises(b, a, b.len() - 1);
    }
    assert(a.len() == b.len());
    assert forall|i: int| 0 <= i < a.len() implies a[i] == b[i] by {
        lemma_place_rises(a, b, i);
        let p = place(b, a[i]);
        lemma_place_rises(b, a, p);
        let q = place(a, b[p]);
        // a[q] == b[p] == a[i], and identities are unique in a
        if q < i {
            assert(a[q].item.id != a[i].item.id);
        } else if i < q {
            assert(a[i].item.id != a[q].item.id);
        }
    }
    assert(a =~= b);
}

proof fn lemma_covered_within(s: Seq<NodeView>, a: Seq<NodeView>, b: Seq<NodeView>, t: Seq<NodeView>)
    requires
        covered(s, a, b),
        within(a, t),
        within(b, t),
    ensures
        within(s, t),
{
    reveal(covered);
    reveal(within);
    assert forall|i: int| 0 <= i < s.len() implies holds(#[trigger] s[i], t) by {
        if holds(s[i], a) {
            let j = choose|j: int| 0 <= j < a.len() && #[trigger] a[j] == s[i];
            assert(holds(a[j], t));
        } else {
            let j = choose|j: int| 0 <= j < b.len() && #[trigger] b[j] == s[i];
            assert(holds(b[j], t));
        }
    }
}

/// Over a foreign, settled store a replica's own batch is integrated item
/// by item: nothing waits, nothing is passed over.
pub proof fn lemma_apply_own(base: Seq<NodeView>, limit: nat, u: Seq<ItemView>, replica: u64, k: int)
    requires
        wf_nodes(base),
        foreign(base, replica),
        own_batch(u, replica),
        0 <= k <= u.len(),
    ensures
        apply_spec(
            StoreView { nodes: base, pending: Seq::empty(), limit },
            u.subrange(0, k),
        ) == (StoreView {
            nodes: integrate_all(base, u.subrange(0, k)),
            pending: Seq::empty(),
            limit,
        }),
    decreases k,
{
    let start = StoreView { nodes: base, pending: Seq::empty(), limit };
    if k == 0 {
        assert(u.subrange(0, 0) =~= Seq::<ItemView>::empty());
    } else {
        lemma_apply_own(base, limit, u, replica, k - 1);
        lemma_own_run(base, u, replica, k - 1);
        lemma_integrate_all_step(base, u, k - 1);
        let t = u.subrange(0, k);
        assert(t.drop_last() =~= u.subrange(0, k - 1));
        assert(t.last() == u[k - 1]);
        let s = integrate_all(base, u.subrange(0, k - 1));
        let x = u[k - 1];
        lemma_step_ready(s, base, u, replica, k - 1);
        let before = StoreView { nodes: s, pending: Seq::<ItemView>::empty(), limit };
        assert(!waiting(Seq::<ItemView>::empty(), x.id));
        assert(!before.known(x.id));
        let next = integrate_spec(s, x);
        assert(settled(next, Seq::<ItemView>::empty()));
        lemma_drain_settled(next, Seq::<ItemView>::empty());
    }
}

proof fn lemma_foreign_of_own(u: Seq<ItemView>, replica: u64, other: u64)
    requires
        own_batch(u, replica),
        replica != other,
    ensures
        foreign(integrate_all(Seq::empty(), u), other),
        wf_nodes(integrate_all(Seq::empty(), u)),
{
    let none = Seq::<NodeView>::empty();
    assert(foreign(none, replica));
    lemma_own_run(none, u, replica, u.len() as int);
    assert(u.subrange(0, u.len() as int) =~= u);
    let e = integrate_all(none, u);
    reveal(from_batch);
    assert forall|i: int| 0 <= i < e.len() implies (#[trigger] e[i]).item.id.replica != other && !(
    e[i].item.content is Delete && e[i].item.content->Delete_0.replica == other) by {
        let j = choose|j: int|
            0 <= j < u.len() && j < u.len() && (#[trigger] e[i]).item == #[trigger] u[j];
        assert(own_item(u[j], replica, j));
    }
}

/// Merging commutes. Two replicas each write a batch on their own, from
/// an empty document on; a third document that applies the one batch and
/// then the other comes to the same store as one that applies them the other
/// way round: the same items in the same causal order with the same
/// tombstones, so that every shared type shows the same in both.
pub proof fn lemma_merge_commutes(
    u1: Seq<ItemView>,
    u2: Seq<ItemView>,
    r1: u64,
    r2: u64,
    limit: nat,
)
    requires
        own_batch(u1, r1),
        own_batch(u2, r2),
        r1 != r2,
    ensures
        apply_spec(apply_spec(empty_store(limit), u1), u2) == apply_spec(
            apply_spec(empty_store(limit), u2),
            u1,
        ),
        forall|ty: TypeRef|
            elements(apply_spec(apply_spec(empty_store(limit), u1), u2).nodes, ty) == elements(
                apply_spec(apply_spec(empty_store(limit), u2), u1).nodes,
                ty,
            ),
{
    let none = Seq::<NodeView>::empty();
    let n1 = integrate_all(none, u1);
    let n2 = integrate_all(none, u2);
    assert(u1.subrange(0, u1.len() as int) =~= u1);
    assert(u2.subrange(0, u2.len() as int) =~= u2);
    assert(foreign(none, r1) && foreign(none, r2));
    lemma_foreign_of_own(u1, r1, r2);
    lemma_foreign_of_own(u2, r2, r1);
    // each batch alone
    lemma_apply_own(none, limit, u1, r1, u1.len() as int);
    lemma_apply_own(none, limit, u2, r2, u2.len() as int);
    // the second batch over the first, either way round
    lemma_apply_own(n1, limit, u2, r2, u2.len() as int);
    lemma_apply_own(n2, limit, u1, r1, u1.len() as int);
    lemma_own_run(n1, u2, r2, u2.len() as int);
    lemma_own_run(n2, u1, r1, u1.len() as int);
    let m12 = integrate_all(n1, u2);
    let m21 = integrate_all(n2, u1);
    lemma_covered_within(m12, n2, n1, m21);
    lemma_covered_within(m21, n1, n2, m12);
    lemma_same_nodes(m12, m21);
}

/// Every item of the order is the replica's own.
pub open spec fn own_doc(nodes: Seq<NodeView>, replica: u64) -> bool {
    forall|i: int| 0 <= i < nodes.len() ==> (#[trigger] nodes[i]).item.id.replica == replica
}

/// What a replica writes into a shared type of a document of its own
/// items speaks only of its own earlier items.
pub proof fn lemma_written_own(
    nodes: Seq<NodeView>,
    replica: u64,
    ty: TypeRef,
    index: int,
    contents: Seq<ContentView>,
    k: int,
)
    requires
        wf_nodes(nodes),
        own_doc(nodes, replica),
        valid_type(nodes, ty),
        0 <= index <= elements(nodes, ty).len(),
        0 <= k < contents.len(),
        next_clock(nodes, replica) + contents.len() <= u64::MAX,
        !(contents[k] is Delete),
    ensures
        own_item(
            written(nodes, replica, ty, index, contents)[k],
            replica,
            next_clock(nodes, replica) + k,
        ),
{
    lemma_clock_bound(nodes, replica, nodes.len() as int);
    let l = left_index(nodes, ty, index);
    if index > 0 {
        lemma_visible_shows(
            nodes,
            head_key(nodes, ty),
            ty.kind,
            nodes.len() as int,
            index - 1,
        );
        let e = elements(nodes, ty)[index - 1];
        let i = choose|i: int| 0 <= i < nodes.len() && #[trigger] nodes[i] == e;
        assert(nodes[i].item.id == e.item.id);
        assert(has_id(nodes, e.item.id));
    }
    assert(0 <= l < nodes.len());
    assert(nodes[l].item.id.replica == replica);
    if l + 1 < nodes.len() {
        assert(nodes[l + 1].item.id.replica == replica);
    }
}

/// The tombstones that a replica writes for items of a document of its
/// own items speak only of its own earlier items.
pub proof fn lemma_tombstones_own(
    nodes: Seq<NodeView>,
    replica: u64,
    targets: Seq<BlockId>,
    k: int,
)
    requires
        wf_nodes(nodes),
        own_doc(nodes, replica),
        forall|m: int| 0 <= m < targets.len() ==> has_id(nodes, #[trigger] targets[m]),
        0 <= k < targets.len(),
        next_clock(nodes, replica) + targets.len() <= u64::MAX,
    ensures
        own_item(tombstones(nodes, replica, targets)[k], replica, next_clock(nodes, replica) + k),
{
    lemma_clock_bound(nodes, replica, nodes.len() as int);
    let t = targets[k];
    assert(has_id(nodes, t));
    let i = index_of(nodes, t);
    assert(nodes[i].item.id.replica == replica);
}

/// The head that a replica writes for a new shared type speaks of no
/// other item.
pub proof fn lemma_head_own(nodes: Seq<NodeView>, replica: u64, kind: TypeKind, name: Seq<char>)
    requires
        wf_nodes(nodes),
        next_clock(nodes, replica) < u64::MAX,
    ensures
        own_item(local_head(nodes, replica, kind, name), replica, next_clock(nodes, replica) as int),
{
    lemma_clock_bound(nodes, replica, nodes.len() as int);
}

/// `m` holds the item of `n` at the same place in the tree.
pub open spec fn same_place(n: NodeView, m: NodeView) -> bool {
    n.item == m.item && n.path == m.path && n.prio == m.prio
}

/// The order holds the item of the node at the node's place.
pub open spec fn placed(n: NodeView, b: Seq<NodeView>) -> bool {
    exists|j: int| 0 <= j < b.len() && same_place(n, #[trigger] b[j])
}

/// `b` holds every item of `a` at its place.
#[verifier::opaque]
pub open spec fn places_within(a: Seq<NodeView>, b: Seq<NodeView>) -> bool {
    forall|i: int| 0 <= i < a.len() ==> placed(#[trigger] a[i], b)
}

/// Every item of `s` stands at its place in `a` or in `b`.
#[verifier::opaque]
pub open spec fn places_covered(s: Seq<NodeView>, a: Seq<NodeView>, b: Seq<NodeView>) -> bool {
    forall|i: int| 0 <= i < s.len() ==> placed(#[trigger] s[i], a) || placed(s[i], b)
}

/// The item speaks of the identity: bears it, has it as an origin, or
/// follows it on the clock.
pub open spec fn speaks(x: ItemView, id: BlockId) -> bool {
    ||| x.id == id
    ||| x.left == Some(id)
    ||| x.right == Some(id)
    ||| (x.id.replica == id.replica && x.id.clock == id.clock + 1)
}

/// No item of `u` speaks of an item of `w`: `u` does not depend on `w`.
pub open spec fn apart(u: Seq<ItemView>, w: Seq<ItemView>) -> bool {
    forall|i: int, j: int|
        0 <= i < u.len() && 0 <= j < w.len() ==> !speaks(#[trigger] u[i], (#[trigger] w[j]).id)
}

/// The identities of the order are those of `base` and of the first `k`
/// items of the batch.
#[verifier::opaque]
pub open spec fn ids_run(nodes: Seq<NodeView>, base: Seq<NodeView>, u: Seq<ItemView>, k: int)
    -> bool {
    forall|id: BlockId|
        has_id(nodes, id) <==> has_id(base, id) || exists|j: int|
            0 <= j < k && j < u.len() && (#[trigger] u[j]).id == id
}

proof fn lemma_ids_step(
    prev: Seq<NodeView>,
    fin: Seq<NodeView>,
    base: Seq<NodeView>,
    u: Seq<ItemView>,
    k: int,
)
    requires
        0 < k <= u.len(),
        ids_run(prev, base, u, k - 1),
        known_plus(prev, Seq::empty(), fin, Seq::empty(), Some(u[k - 1].id)),
    ensures
        ids_run(fin, base, u, k),
{
    reveal(ids_run);
    reveal(known_plus);
    let x = u[k - 1];
    assert forall|id: BlockId|
        has_id(fin, id) <==> has_id(base, id) || exists|j: int|
            0 <= j < k && j < u.len() && (#[trigger] u[j]).id == id by {
        assert(!waiting(Seq::<ItemView>::empty(), id));
        assert(has_id(fin, id) <==> has_id(prev, id) || Some(x.id) == Some(id));
        if id == x.id {
            assert(u[k - 1].id == id);
        }
        if has_id(prev, id) && !has_id(base, id) {
            let j = choose|j: int| 0 <= j < k - 1 && j < u.len() && (#[trigger] u[j]).id == id;
            assert(0 <= j < k && u[j].id == id);
        }
        if exists|j: int| 0 <= j < k && j < u.len() && (#[trigger] u[j]).id == id {
            let j = choose|j: int| 0 <= j < k && j < u.len() && (#[trigger] u[j]).id == id;
            if j < k - 1 {
                assert(has_id(prev, id));
            }
        }
    }
}

proof fn lemma_steady_run(base: Seq<NodeView>, u: Seq<ItemView>, k: int)
    requires
        wf_nodes(base),
        steady(base, u),
        0 <= k <= u.len(),
    ensures
        wf_nodes(integrate_all(base, u.subrange(0, k))),
        ids_run(integrate_all(base, u.subrange(0, k)), base, u, k),
    decreases k,
{
    reveal(steady);
    if k == 0 {
        assert(u.subrange(0, 0) =~= Seq::<ItemView>::empty());
        assert(ids_run(base, base, u, 0)) by {
            reveal(ids_run);
        }
    } else {
        lemma_steady_run(base, u, k - 1);
        lemma_integrate_all_step(base, u, k - 1);
        let prev = integrate_all(base, u.subrange(0, k - 1));
        let x = u[k - 1];
        assert(ready(prev, x));
        lemma_integrate(prev, x);
        lemma_ids_step(prev, integrate_spec(prev, x), base, u, k);
    }
}

/// Over a store where nothing waits a steady batch is integrated item by
/// item.
pub proof fn lemma_apply_steady(base: Seq<NodeView>, limit: nat, u: Seq<ItemView>, k: int)
    requires
        wf_nodes(base),
        steady(base, u),
        0 <= k <= u.len(),
    ensures
        apply_spec(
            StoreView { nodes: base, pending: Seq::empty(), limit },
            u.subrange(0, k),
        ) == (StoreView {
            nodes: integrate_all(base, u.subrange(0, k)),
            pending: Seq::empty(),
            limit,
        }),
    decreases k,
{
    reveal(steady);
    if k == 0 {
        assert(u.subrange(0, 0) =~= Seq::<ItemView>::empty());
    } else {
        lemma_apply_steady(base, limit, u, k - 1);
        lemma_integrate_all_step(base, u, k - 1);
        let t = u.subrange(0, k);
        assert(t.drop_last() =~= u.subrange(0, k - 1));
        assert(t.last() == u[k - 1]);
        let s = integrate_all(base, u.subrange(0, k - 1));
        let x = u[k - 1];
        assert(ready(s, x));
        let before = StoreView { nodes: s, pending: Seq::<ItemView>::empty(), limit };
        assert(!waiting(Seq::<ItemView>::empty(), x.id));
        assert(!before.known(x.id));
        let next = integrate_spec(s, x);
        assert(settled(next, Seq::<ItemView>::empty()));
        lemma_drain_settled(next, Seq::<ItemView>::empty());
    }
}

proof fn lemma_place_step(
    a: Seq<NodeView>,
    b: Seq<NodeView>,
    x: ItemView,
    pa: int,
    pb: int,
    na: NodeView,
    nb: NodeView,
)
    requires
        places_within(a, b),
        same_place(na, nb),
        0 <= pa <= a.len(),
        0 <= pb <= b.len(),
    ensures
        places_within(mark(a.insert(pa, na), x), mark(b.insert(pb, nb), x)),
{
    reveal(places_within);
    let a2 = mark(a.insert(pa, na), x);
    let b2 = mark(b.insert(pb, nb), x);
    lemma_shape_exact(a, x, pa, na);
    lemma_shape_exact(b, x, pb, nb);
    assert forall|q: int| 0 <= q < a2.len() implies placed(#[trigger] a2[q], b2) by {
        if q == pa {
            assert(b2[pb] == marked(source(b, pb, nb, pb), x));
            assert(same_place(a2[q], b2[pb]));
        } else {
            let o = before_insert(pa, q);
            assert(placed(a[o], b));
            let j = choose|j: int| 0 <= j < b.len() && same_place(a[o], #[trigger] b[j]);
            let j2 = if j < pb {
                j
            } else {
                j + 1
            };
            assert(b2[j2] == marked(source(b, pb, nb, j2), x));
            assert(same_place(a2[q], b2[j2]));
        }
    }
}

proof fn lemma_place_grow(a: Seq<NodeView>, s: Seq<NodeView>, x: ItemView, ps: int, n: NodeView)
    requires
        places_within(a, s),
        0 <= ps <= s.len(),
    ensures
        places_within(a, mark(s.insert(ps, n), x)),
{
    reveal(places_within);
    let s2 = mark(s.insert(ps, n), x);
    lemma_shape_exact(s, x, ps, n);
    assert forall|i: int| 0 <= i < a.len() implies placed(#[trigger] a[i], s2) by {
        assert(placed(a[i], s));
        let j = choose|j: int| 0 <= j < s.len() && same_place(a[i], #[trigger] s[j]);
        let j2 = if j < ps {
            j
        } else {
            j + 1
        };
        assert(s2[j2] == marked(source(s, ps, n, j2), x));
        assert(same_place(a[i], s2[j2]));
    }
}

proof fn lemma_place_covered(
    s: Seq<NodeView>,
    a: Seq<NodeView>,
    y: Seq<NodeView>,
    x: ItemView,
    ps: int,
    py: int,
    ns: NodeView,
    ny: NodeView,
)
    requires
        places_covered(s, a, y),
        same_place(ns, ny),
        0 <= ps <= s.len(),
        0 <= py <= y.len(),
    ensures
        places_covered(mark(s.insert(ps, ns), x), a, mark(y.insert(py, ny), x)),
{
    reveal(places_covered);
    let s2 = mark(s.insert(ps, ns), x);
    let y2 = mark(y.insert(py, ny), x);
    lemma_shape_exact(s, x, ps, ns);
    lemma_shape_exact(y, x, py, ny);
    assert forall|q: int| 0 <= q < s2.len() implies placed(#[trigger] s2[q], a) || placed(
        s2[q],
        y2,
    ) by {
        if q == ps {
            assert(y2[py] == marked(source(y, py, ny, py), x));
            assert(same_place(s2[q], y2[py]));
        } else {
            let o = before_insert(ps, q);
            assert(placed(s[o], a) || placed(s[o], y));
            if placed(s[o], a) {
                let j = choose|j: int| 0 <= j < a.len() && same_place(s[o], #[trigger] a[j]);
                assert(same_place(s2[q], a[j]));
            } else {
                let j = choose|j: int| 0 <= j < y.len() && same_place(s[o], #[trigger] y[j]);
                let j2 = if j < py {
                    j
                } else {
                    j + 1
                };
                assert(y2[j2] == marked(source(y, py, ny, j2), x));
                assert(same_place(s2[q], y2[j2]));
            }
        }
    }
}

/// An identity of an order stands in every order that holds its items.
proof fn lemma_placed_id(a: Seq<NodeView>, b: Seq<NodeView>, id: BlockId)
    requires
        places_within(a, b),
        wf_nodes(b),
        has_id(a, id),
    ensures
        has_id(b, id),
        same_place(a[index_of(a, id)], b[index_of(b, id)]),
{
    reveal(places_within);
    let i = index_of(a, id);
    assert(placed(a[i], b));
    let j = choose|j: int| 0 <= j < b.len() && same_place(a[i], #[trigger] b[j]);
    assert(b[j].item.id == id);
    lemma_index_of(b, j);
}

/// The next item of a steady batch is as ready, and comes to the same
/// place, over an order that holds more, if what is more does not bear an
/// identity that the item speaks of.
proof fn lemma_over_node(
    xs: Seq<NodeView>,
    ys: Seq<NodeView>,
    a: Seq<NodeView>,
    x: ItemView,
)
    requires
        wf_nodes(xs),
        wf_nodes(ys),
        places_within(ys, xs),
        places_covered(xs, a, ys),
        ready(ys, x),
        !has_id(a, x.id) || has_id(ys, x.id),
    ensures
        ready(xs, x),
        same_place(node_for(xs, x), node_for(ys, x)),
{
    reveal(places_covered);
    if has_id(xs, x.id) {
        let i = index_of(xs, x.id);
        assert(placed(xs[i], a) || placed(xs[i], ys));
        if placed(xs[i], a) {
            let j = choose|j: int| 0 <= j < a.len() && same_place(xs[i], #[trigger] a[j]);
            assert(a[j].item.id == x.id);
        } else {
            let j = choose|j: int| 0 <= j < ys.len() && same_place(xs[i], #[trigger] ys[j]);
            assert(ys[j].item.id == x.id);
        }
    }
    if x.id.clock > 0 {
        lemma_placed_id(ys, xs, BlockId { replica: x.id.replica, clock: (x.id.clock - 1) as u64 });
    }
    if x.left is Some {
        lemma_placed_id(ys, xs, x.left->Some_0);
        assert(parent_path(xs, x.left) == parent_path(ys, x.left));
    }
    if x.right is Some {
        lemma_placed_id(ys, xs, x.right->Some_0);
        assert(prio_for(xs, x) == prio_for(ys, x));
    }
}

/// What holds after the first `k` items of a steady batch `u` are
/// integrated over `base` with another steady batch `w` already in it, and,
/// beside it, over `base` alone.
pub open spec fn over_holds(base: Seq<NodeView>, w: Seq<ItemView>, u: Seq<ItemView>, k: int)
    -> bool {
    let a = integrate_all(base, w);
    let xs = integrate_all(a, u.subrange(0, k));
    let ys = integrate_all(base, u.subrange(0, k));
    &&& wf_nodes(a)
    &&& wf_nodes(xs)
    &&& wf_nodes(ys)
    &&& places_within(ys, xs)
    &&& places_within(a, xs)
    &&& places_covered(xs, a, ys)
    &&& places_within(base, ys)
    &&& forall|j: int| 0 <= j < k ==> ready(integrate_all(a, u.subrange(0, j)), #[trigger] u[j])
}

proof fn lemma_base_within(base: Seq<NodeView>, u: Seq<ItemView>, k: int)
    requires
        wf_nodes(base),
        steady(base, u),
        0 <= k <= u.len(),
    ensures
        places_within(base, integrate_all(base, u.subrange(0, k))),
    decreases k,
{
    reveal(steady);
    if k == 0 {
        assert(u.subrange(0, 0) =~= Seq::<ItemView>::empty());
        assert(places_within(base, base)) by {
            reveal(places_within);
            assert forall|i: int| 0 <= i < base.len() implies placed(#[trigger] base[i], base) by {
                assert(same_place(base[i], base[i]));
            }
        }
    } else {
        lemma_base_within(base, u, k - 1);
        lemma_steady_run(base, u, k - 1);
        lemma_integrate_all_step(base, u, k - 1);
        let prev = integrate_all(base, u.subrange(0, k - 1));
        let x = u[k - 1];
        let pos = lemma_slot(prev, x);
        lemma_integrate_wf(prev, x, pos);
        lemma_place_grow(base, prev, x, pos, node_for(prev, x));
    }
}

proof fn lemma_over_run(base: Seq<NodeView>, w: Seq<ItemView>, u: Seq<ItemView>, k: int)
    requires
        wf_nodes(base),
        steady(base, w),
        steady(base, u),
        apart(u, w),
        0 <= k <= u.len(),
    ensures
        over_holds(base, w, u, k),
    decreases k,
{
    reveal(steady);
    let a = integrate_all(base, w);
    lemma_steady_run(base, w, w.len() as int);
    assert(w.subrange(0, w.len() as int) =~= w);
    lemma_steady_run(base, u, k);
    lemma_base_within(base, u, k);
    if k == 0 {
        assert(u.subrange(0, 0) =~= Seq::<ItemView>::empty());
        lemma_base_within(base, w, w.len() as int);
        assert(places_within(a, a)) by {
            reveal(places_within);
            assert forall|i: int| 0 <= i < a.len() implies placed(#[trigger] a[i], a) by {
                assert(same_place(a[i], a[i]));
            }
        }
        assert(places_covered(a, a, base)) by {
            reveal(places_covered);
            assert forall|i: int| 0 <= i < a.len() implies placed(#[trigger] a[i], a) || placed(
                a[i],
                base,
            ) by {
                assert(same_place(a[i], a[i]));
            }
        }
    } else {
        lemma_over_run(base, w, u, k - 1);
        lemma_steady_run(base, u, k - 1);
        lemma_integrate_all_step(a, u, k - 1);
        lemma_integrate_all_step(base, u, k - 1);
        let xs = integrate_all(a, u.subrange(0, k - 1));
        let ys = integrate_all(base, u.subrange(0, k - 1));
        let x = u[k - 1];
        assert(ready(ys, x));
        // an item of `a` with the identity of `x` would be one of `base`
        assert(!has_id(a, x.id) || has_id(ys, x.id)) by {
            if has_id(a, x.id) {
                reveal(ids_run);
                if !has_id(base, x.id) {
                    let j = choose|j: int|
                        0 <= j < w.len() && j < w.len() && (#[trigger] w[j]).id == x.id;
                    assert(speaks(u[k - 1], w[j].id));
                } else {
                    lemma_placed_id(base, ys, x.id);
                }
            }
        }
        lemma_over_node(xs, ys, a, x);
        let px = lemma_slot(xs, x);
        let py = lemma_slot(ys, x);
        lemma_integrate_wf(xs, x, px);
        lemma_integrate_wf(ys, x, py);
        let nx = node_for(xs, x);
        let ny = node_for(ys, x);
        lemma_place_step(ys, xs, x, py, px, ny, nx);
        lemma_place_grow(a, xs, x, px, nx);
        lemma_place_covered(xs, a, ys, x, px, py, nx, ny);
        assert forall|j: int| 0 <= j < k implies ready(
            integrate_all(a, u.subrange(0, j)),
            #[trigger] u[j],
        ) by {
            if j == k - 1 {
                assert(ready(xs, x));
            }
        }
    }
}

proof fn lemma_spot_rises(a: Seq<NodeView>, b: Seq<NodeView>, i: int) -> (p: int)
    requires
        wf_nodes(a),
        wf_nodes(b),
        places_within(a, b),
        0 <= i < a.len(),
    ensures
        i <= p < b.len(),
        same_place(a[i], b[p]),
    decreases i,
{
    reveal(places_within);
    assert(placed(a[i], b));
    let q = choose|q: int| 0 <= q < b.len() && same_place(a[i], #[trigger] b[q]);
    if i > 0 {
        let p = lemma_spot_rises(a, b, i - 1);
        assert(path_lt(a[i - 1].path, a[i].path));
        if q < p {
            assert(path_lt(b[q].path, b[p].path));
            lemma_path_lt_asym(b[q].path, b[p].path);
        } else if q == p {
            lemma_path_lt_asym(a[i - 1].path, a[i].path);
        }
    }
    q
}

/// Two well-formed orders that hold the same items at the same places
/// are the same order, tombstones and all.
pub proof fn lemma_same_places(a: Seq<NodeView>, b: Seq<NodeView>)
    requires
        wf_nodes(a),
        wf_nodes(b),
        places_within(a, b),
        places_within(b, a),
    ensures
        a == b,
{
    if a.len() > 0 {
        let p = lemma_spot_rises(a, b, a.len() - 1);
    }
    if b.len() > 0 {
        let p = lemma_spot_rises(b, a, b.len() - 1);
    }
    assert(a.len() == b.len());
    assert forall|i: int| 0 <= i < a.len() implies same_place(#[trigger] a[i], b[i]) by {
        let p = lemma_spot_rises(a, b, i);
        let q = lemma_spot_rises(b, a, p);
        if q < i {
            assert(a[q].item.id != a[i].item.id);
        } else if i < q {
            assert(a[i].item.id != a[q].item.id);
        }
    }
    assert forall|i: int| 0 <= i < a.len() implies a[i] == b[i] by {
        assert(same_place(a[i], b[i]));
        assert(node_ok(a, i));
        assert(node_ok(b, i));
        let id = a[i].item.id;
        if targeted(a, id) {
            let m = choose|m: int|
                0 <= m < a.len() && (#[trigger] a[m]).item.content == ContentView::Delete(id);
            assert(same_place(a[m], b[m]));
            assert(b[m].item.content == ContentView::Delete(id));
        }
        if targeted(b, id) {
            let m = choose|m: int|
                0 <= m < b.len() && (#[trigger] b[m]).item.content == ContentView::Delete(id);
            assert(same_place(a[m], b[m]));
            assert(a[m].item.content == ContentView::Delete(id));
        }
    }
    assert(a =~= b);
}

proof fn lemma_places_join(
    s: Seq<NodeView>,
    a: Seq<NodeView>,
    b: Seq<NodeView>,
    t: Seq<NodeView>,
)
    requires
        places_covered(s, a, b),
        places_within(a, t),
        places_within(b, t),
    ensures
        places_within(s, t),
{
    reveal(places_covered);
    reveal(places_within);
    assert forall|i: int| 0 <= i < s.len() implies placed(#[trigger] s[i], t) by {
        if placed(s[i], a) {
            let j = choose|j: int| 0 <= j < a.len() && same_place(s[i], #[trigger] a[j]);
            assert(placed(a[j], t));
            let m = choose|m: int| 0 <= m < t.len() && same_place(a[j], #[trigger] t[m]);
            assert(same_place(s[i], t[m]));
        } else {
            let j = choose|j: int| 0 <= j < b.len() && same_place(s[i], #[trigger] b[j]);
            assert(placed(b[j], t));
            let m = choose|m: int| 0 <= m < t.len() && same_place(b[j], #[trigger] t[m]);
            assert(same_place(s[i], t[m]));
        }
    }
}

/// Merging commutes over any store where nothing waits. Two batches, each
/// in an order in which its items are ready when their turn comes, and
/// neither speaking of an item of the other, come to the same store whichever
/// is applied first: the same items in the same causal order with the same
/// tombstones, so that every shared type shows the same.
pub proof fn lemma_merge_commutes_over(s: StoreView, u1: Seq<ItemView>, u2: Seq<ItemView>)
    requires
        wf_store(s),
        s.pending.len() == 0,
        steady(s.nodes, u1),
        steady(s.nodes, u2),
        apart(u1, u2),
        apart(u2, u1),
    ensures
        apply_spec(apply_spec(s, u1), u2) == apply_spec(apply_spec(s, u2), u1),
        forall|ty: TypeRef|
            elements(apply_spec(apply_spec(s, u1), u2).nodes, ty) == elements(
                apply_spec(apply_spec(s, u2), u1).nodes,
                ty,
            ),
{
    reveal(steady);
    let base = s.nodes;
    assert(s.pending =~= Seq::<ItemView>::empty());
    assert(s == (StoreView { nodes: base, pending: Seq::empty(), limit: s.limit }));
    let a = integrate_all(base, u1);
    let b = integrate_all(base, u2);
    assert(u1.subrange(0, u1.len() as int) =~= u1);
    assert(u2.subrange(0, u2.len() as int) =~= u2);
    lemma_over_run(base, u1, u2, u2.len() as int);
    lemma_over_run(base, u2, u1, u1.len() as int);
    let m12 = integrate_all(a, u2);
    let m21 = integrate_all(b, u1);
    // each batch is steady over the other
    assert(steady(a, u2));
    assert(steady(b, u1));
    lemma_apply_steady(base, s.limit, u1, u1.len() as int);
    lemma_apply_steady(base, s.limit, u2, u2.len() as int);
    lemma_apply_steady(a, s.limit, u2, u2.len() as int);
    lemma_apply_steady(b, s.limit, u1, u1.len() as int);
    lemma_places_join(m12, a, b, m21);
    lemma_places_join(m21, b, a, m12);
    lemma_same_places(m12, m21);
}

} // verus!
