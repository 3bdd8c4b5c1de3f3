//! What a reader sees of a shared type: the items under its head that are
//! not tombstoned, in causal order.

use crate::item::{BlockId, ContentView, ItemView, TypeKind};
use crate::store::{known_plus, lemma_integrate, lemma_slot, settled, targeted, waiting};
use crate::order::{
    agree, is_prefix, key_lt, lemma_after_subtree, lemma_branch, lemma_path_lt_asym,
    lemma_path_lt_trans, path_lt, SibKey,
};
use crate::store::{
    above, before_insert, has_id, index_of, integrate_spec, key_of, lemma_adjacent, lemma_index_of,
    lemma_integrate_wf, node_for, node_ok, prio_for, ready, source, splits_at, wf_nodes, NodeView,
};
use vstd::prelude::*;

verus! {

/// A handle on a shared type: the identity of its head and its kind.
#[derive(Clone, Copy, Debug, PartialEq, Eq, Structural)]
pub struct TypeRef {
    pub head: BlockId,
    pub kind: TypeKind,
}

/// The content that a type of this kind holds as elements.
pub open spec fn elem_of(kind: TypeKind, c: ContentView) -> bool {
    match kind {
        TypeKind::Array => c is Value,
        TypeKind::Mapping => c is Entry,
        TypeKind::Text => c is Char,
    }
}

/// The node is an element of the type under the head with key `head`, and
/// not tombstoned.
pub open spec fn shows(n: NodeView, head: SibKey, kind: TypeKind) -> bool {
    n.path.len() > 1 && n.path[0] == head && !n.deleted && elem_of(kind, n.item.content)
}

/// The elements that show among the first `n` nodes, in causal order.
pub open spec fn visible_to(nodes: Seq<NodeView>, head: SibKey, kind: TypeKind, n: int) -> Seq<
    NodeView,
>
    decreases n,
{
    if n <= 0 {
        Seq::empty()
    } else {
        let rest = visible_to(nodes, head, kind, n - 1);
        if shows(nodes[n - 1], head, kind) {
            rest.push(nodes[n - 1])
        } else {
            rest
        }
    }
}

/// The node at index `i` heads a shared type of this kind.
pub open spec fn is_head(nodes: Seq<NodeView>, i: int, kind: TypeKind) -> bool {
    &&& 0 <= i < nodes.len()
    &&& nodes[i].path.len() == 1
    &&& nodes[i].item.content is Marker
    &&& nodes[i].item.content->Marker_0 == kind
}

/// The handle names the head of a type of its kind.
pub open spec fn valid_type(nodes: Seq<NodeView>, ty: TypeRef) -> bool {
    has_id(nodes, ty.head) && is_head(nodes, index_of(nodes, ty.head), ty.kind)
}

/// The sibling key of the handle's head.
pub open spec fn head_key(nodes: Seq<NodeView>, ty: TypeRef) -> SibKey {
    key_of(nodes[index_of(nodes, ty.head)])
}

/// The elements of the type that show, in causal order.
pub open spec fn elements(nodes: Seq<NodeView>, ty: TypeRef) -> Seq<NodeView> {
    visible_to(nodes, head_key(nodes, ty), ty.kind, nodes.len() as int)
}

/// What shows among fewer nodes starts what shows among more.
pub proof fn lemma_visible_len(nodes: Seq<NodeView>, head: SibKey, kind: TypeKind, m: int, n: int)
    requires
        0 <= m <= n,
    ensures
        visible_to(nodes, head, kind, m).len() <= visible_to(nodes, head, kind, n).len() <= n,
        visible_to(nodes, head, kind, m) == visible_to(nodes, head, kind, n).subrange(
            0,
            visible_to(nodes, head, kind, m).len() as int,
        ),
    decreases n,
{
    if m < n {
        lemma_visible_len(nodes, head, kind, m, n - 1);
        let a = visible_to(nodes, head, kind, m);
        let b = visible_to(nodes, head, kind, n - 1);
        let c = visible_to(nodes, head, kind, n);
        assert(a =~= c.subrange(0, a.len() as int));
    } else {
        lemma_visible_bound(nodes, head, kind, n);
        let c = visible_to(nodes, head, kind, n);
        assert(c =~= c.subrange(0, c.len() as int));
    }
}

proof fn lemma_visible_bound(nodes: Seq<NodeView>, head: SibKey, kind: TypeKind, n: int)
    requires
        0 <= n,
    ensures
        visible_to(nodes, head, kind, n).len() <= n,
    decreases n,
{
    if n > 0 {
        lemma_visible_bound(nodes, head, kind, n - 1);
    }
}

/// Every element that shows is a node of the order that shows.
pub proof fn lemma_visible_shows(nodes: Seq<NodeView>, head: SibKey, kind: TypeKind, n: int, k: int)
    requires
        0 <= n <= nodes.len(),
        0 <= k < visible_to(nodes, head, kind, n).len(),
    ensures
        shows(visible_to(nodes, head, kind, n)[k], head, kind),
        exists|i: int| 0 <= i < n && #[trigger] nodes[i] == visible_to(nodes, head, kind, n)[k],
    decreases n,
{
    if n > 0 {
        let rest = visible_to(nodes, head, kind, n - 1);
        if k < rest.len() {
            lemma_visible_shows(nodes, head, kind, n - 1, k);
            let i = choose|i: int| 0 <= i < n - 1 && #[trigger] nodes[i] == rest[k];
            assert(nodes[i] == visible_to(nodes, head, kind, n)[k]);
        } else {
            assert(nodes[n - 1] == visible_to(nodes, head, kind, n)[k]);
        }
    }
}

/// What shows where the two orders agree node by node on what shows.
pub proof fn lemma_visible_same(
    a: Seq<NodeView>,
    b: Seq<NodeView>,
    head: SibKey,
    kind: TypeKind,
    n: int,
)
    requires
        0 <= n <= a.len(),
        n <= b.len(),
        forall|k: int|
            0 <= k < n ==> shows(#[trigger] a[k], head, kind) == shows(b[k], head, kind) && (shows(
                a[k],
                head,
                kind,
            ) ==> a[k] == b[k]),
    ensures
        visible_to(a, head, kind, n) == visible_to(b, head, kind, n),
    decreases n,
{
    if n > 0 {
        lemma_visible_same(a, b, head, kind, n - 1);
        assert(shows(a[n - 1], head, kind) == shows(b[n - 1], head, kind));
    }
}

/// What shows after a node is put in at `pos`.
pub proof fn lemma_visible_insert(
    nodes: Seq<NodeView>,
    head: SibKey,
    kind: TypeKind,
    pos: int,
    x: NodeView,
    n: int,
)
    requires
        0 <= pos <= nodes.len(),
        0 <= n <= nodes.len(),
    ensures
        n <= pos ==> visible_to(nodes.insert(pos, x), head, kind, n) == visible_to(
            nodes,
            head,
            kind,
            n,
        ),
        n >= pos && shows(x, head, kind) ==> visible_to(nodes.insert(pos, x), head, kind, n + 1)
            == visible_to(nodes, head, kind, n).insert(
            visible_to(nodes, head, kind, pos).len() as int,
            x,
        ),
        n >= pos && !shows(x, head, kind) ==> visible_to(nodes.insert(pos, x), head, kind, n + 1)
            == visible_to(nodes, head, kind, n),
    decreases n,
{
    let ins = nodes.insert(pos, x);
    if n > 0 {
        lemma_visible_insert(nodes, head, kind, pos, x, n - 1);
    }
    if n <= pos {
        if n > 0 {
            assert(ins[n - 1] == nodes[n - 1]);
        }
        assert(visible_to(ins, head, kind, n) == visible_to(nodes, head, kind, n));
    }
    if n >= pos {
        let k = visible_to(nodes, head, kind, pos).len() as int;
        let before = visible_to(ins, head, kind, n);
        assert(visible_to(ins, head, kind, n + 1) == if shows(ins[n], head, kind) {
            before.push(ins[n])
        } else {
            before
        });
        if n == pos {
            assert(ins[pos] == x);
            assert(before == visible_to(nodes, head, kind, n));
            if shows(x, head, kind) {
                assert(before.push(x) =~= before.insert(k, x));
            }
        } else {
            assert(ins[n] == nodes[n - 1]);
            lemma_visible_len(nodes, head, kind, pos, n - 1);
            let prev = visible_to(nodes, head, kind, n - 1);
            assert(visible_to(nodes, head, kind, n) == if shows(nodes[n - 1], head, kind) {
                prev.push(nodes[n - 1])
            } else {
                prev
            });
            if shows(x, head, kind) {
                assert(before == prev.insert(k, x));
                if shows(nodes[n - 1], head, kind) {
                    assert(prev.insert(k, x).push(nodes[n - 1]) =~= prev.push(nodes[n - 1]).insert(
                        k,
                        x,
                    ));
                }
            } else {
                assert(before == prev);
            }
        }
    }
}

/// What shows after the node at `ti` stops showing.
pub proof fn lemma_visible_drop(
    a: Seq<NodeView>,
    b: Seq<NodeView>,
    head: SibKey,
    kind: TypeKind,
    ti: int,
    n: int,
)
    requires
        a.len() == b.len(),
        0 <= ti < a.len(),
        0 <= n <= a.len(),
        shows(a[ti], head, kind),
        !shows(b[ti], head, kind),
        forall|k: int| 0 <= k < a.len() && k != ti ==> #[trigger] a[k] == b[k],
    ensures
        n <= ti ==> visible_to(b, head, kind, n) == visible_to(a, head, kind, n),
        n > ti ==> visible_to(b, head, kind, n) == visible_to(a, head, kind, n).remove(
            visible_to(a, head, kind, ti).len() as int,
        ),
    decreases n,
{
    if n > 0 {
        lemma_visible_drop(a, b, head, kind, ti, n - 1);
        let k = visible_to(a, head, kind, ti).len() as int;
        if n - 1 == ti {
            assert(visible_to(a, head, kind, ti).push(a[ti]).remove(k) =~= visible_to(
                a,
                head,
                kind,
                ti,
            ));
        } else if n - 1 > ti {
            assert(a[n - 1] == b[n - 1]);
            lemma_visible_len(a, head, kind, ti + 1, n - 1);
            let prev = visible_to(a, head, kind, n - 1);
            if shows(a[n - 1], head, kind) {
                assert(prev.push(a[n - 1]).remove(k) =~= prev.remove(k).push(a[n - 1]));
            }
        } else {
            assert(a[n - 1] == b[n - 1]);
        }
    }
}

/// The origins with which a replica writes right behind the node at `l`:
/// that node to the left, and to the right what follows it in the same
/// sequence.
pub open spec fn right_of(nodes: Seq<NodeView>, l: int) -> Option<BlockId> {
    if l + 1 < nodes.len() && nodes[l + 1].path.len() > 1 {
        Some(nodes[l + 1].item.id)
    } else {
        None
    }
}

/// An item written with those origins comes to stand right behind `l`.
pub proof fn lemma_insert_after(nodes: Seq<NodeView>, l: int, x: ItemView)
    requires
        wf_nodes(nodes),
        0 <= l < nodes.len(),
        x.left == Some(nodes[l].item.id),
        x.right == right_of(nodes, l),
        ready(nodes, x),
    ensures
        splits_at(nodes, node_for(nodes, x).path, l + 1),
        node_for(nodes, x).path.len() == nodes[l].path.len() + 1,
        is_prefix(nodes[l].path, node_for(nodes, x).path),
{
    lemma_index_of(nodes, l);
    assert(node_ok(nodes, l));
    let n = node_for(nodes, x);
    let parent = nodes[l].path;
    let px = n.path;
    let kx = key_of(n);
    assert(is_prefix(parent, px));
    assert(path_lt(parent, px));
    assert forall|j: int| 0 <= j < l + 1 implies path_lt((#[trigger] nodes[j]).path, px) by {
        if j < l {
            assert(path_lt(nodes[j].path, nodes[l].path));
            lemma_path_lt_trans(nodes[j].path, parent, px);
        }
    }
    if l + 1 < nodes.len() {
        let z = nodes[l + 1];
        let pz = z.path;
        lemma_adjacent(nodes, l + 1);
        assert(node_ok(nodes, l + 1));
        assert(path_lt(nodes[l].path, nodes[l + 1].path));
        if pz.len() <= parent.len() {
            lemma_after_subtree(parent, pz, px);
        } else {
            assert(pz.len() == parent.len() + 1);
            assert(is_prefix(parent, pz));
            lemma_index_of(nodes, l + 1);
            match z.item.left {
                None => {},
                Some(lz) => {
                    let j = choose|j: int|
                        0 <= j < l + 1 && (#[trigger] nodes[j]).item.id == lz && pz
                            == nodes[j].path.push(key_of(z));
                    assert(nodes[j].path =~= parent) by {
                        assert(nodes[j].path =~= pz.drop_last());
                        assert(pz.drop_last() =~= parent);
                    }
                    if j < l {
                        assert(path_lt(nodes[j].path, nodes[l].path));
                        lemma_path_lt_asym(nodes[j].path, nodes[l].path);
                    }
                    assert(j == l);
                },
            }
            assert(z.item.left == x.left);
            assert(prio_for(nodes, x) == z.prio + 1);
            assert(pz[parent.len() as int] == key_of(z));
            assert(key_lt(kx, key_of(z)));
            lemma_branch(parent, px, pz);
        }
        assert forall|j: int| l + 1 <= j < nodes.len() implies path_lt(
            px,
            (#[trigger] nodes[j]).path,
        ) by {
            if j > l + 1 {
                assert(path_lt(nodes[l + 1].path, nodes[j].path));
                lemma_path_lt_trans(px, pz, nodes[j].path);
            }
        }
    }
}

/// A head keeps its place in the tree, and a handle stays valid, when an
/// item is integrated.
pub proof fn lemma_head_kept(nodes: Seq<NodeView>, x: ItemView, pos: int, ty: TypeRef)
    requires
        wf_nodes(nodes),
        ready(nodes, x),
        splits_at(nodes, node_for(nodes, x).path, pos),
        valid_type(nodes, ty),
    ensures
        valid_type(integrate_spec(nodes, x), ty),
        head_key(integrate_spec(nodes, x), ty) == head_key(nodes, ty),
{
    lemma_integrate_wf(nodes, x, pos);
    let n = node_for(nodes, x);
    let fin = integrate_spec(nodes, x);
    let mid = nodes.insert(pos, n);
    let i = index_of(nodes, ty.head);
    let j = if i < pos {
        i
    } else {
        i + 1
    };
    assert(mid[j] == nodes[i]);
    assert(fin[j].item == nodes[i].item && fin[j].path == nodes[i].path && fin[j].prio
        == nodes[i].prio);
    lemma_index_of(fin, j);
}

/// Below a head every node starts its path with the head's key.
pub proof fn lemma_block_inside(nodes: Seq<NodeView>, mi: int, j: int)
    requires
        wf_nodes(nodes),
        0 <= mi < j < nodes.len(),
        nodes[mi].path.len() == 1,
        forall|k: int| mi < k <= j ==> (#[trigger] nodes[k]).path.len() > 1,
    ensures
        nodes[j].path[0] == key_of(nodes[mi]),
    decreases j,
{
    lemma_adjacent(nodes, j);
    assert(node_ok(nodes, mi));
    if j - 1 > mi {
        lemma_block_inside(nodes, mi, j - 1);
        assert(nodes[j - 1].path.len() > 1);
    }
}

/// Up to a head, and from the next head on, no node starts its path with
/// the head's key and goes on.
pub proof fn lemma_block_outside(nodes: Seq<NodeView>, mi: int, e: int, j: int)
    requires
        wf_nodes(nodes),
        0 <= mi < nodes.len(),
        nodes[mi].path.len() == 1,
        0 <= j < nodes.len(),
        j <= mi || (mi < e <= j && nodes[e].path.len() == 1),
    ensures
        !(nodes[j].path.len() > 1 && nodes[j].path[0] == key_of(nodes[mi])),
{
    let hk = key_of(nodes[mi]);
    let pj = nodes[j].path;
    assert(node_ok(nodes, mi));
    assert(nodes[mi].path =~= seq![hk]);
    if pj.len() > 1 && pj[0] == hk {
        assert(is_prefix(nodes[mi].path, pj));
        assert(path_lt(nodes[mi].path, pj));
        if j < mi {
            assert(path_lt(nodes[j].path, nodes[mi].path));
            lemma_path_lt_asym(nodes[j].path, nodes[mi].path);
        } else if j > mi {
            assert(node_ok(nodes, e));
            let pe = nodes[e].path;
            assert(path_lt(nodes[mi].path, pe));
            assert(nodes[mi].item.id != nodes[e].item.id);
            assert(pe[0] == key_of(nodes[e]));
            let k = choose|k: int| crate::order::differ_at(nodes[mi].path, pe, k);
            assert(key_lt(hk, pe[0]));
            assert(crate::order::differ_at(pj, pe, 0));
            assert(path_lt(pj, pe));
            if j > e {
                assert(path_lt(nodes[e].path, nodes[j].path));
            }
            lemma_path_lt_asym(pj, pe);
        }
    }
}

/// Nodes that do not show add nothing.
pub proof fn lemma_visible_skip(
    nodes: Seq<NodeView>,
    head: SibKey,
    kind: TypeKind,
    m: int,
    n: int,
)
    requires
        0 <= m <= n <= nodes.len(),
        forall|k: int| m <= k < n ==> !shows(#[trigger] nodes[k], head, kind),
    ensures
        visible_to(nodes, head, kind, n) == visible_to(nodes, head, kind, m),
    decreases n,
{
    if m < n {
        lemma_visible_skip(nodes, head, kind, m, n - 1);
    }
}

/// One more than the highest clock of the replica among the first `n`
/// nodes; 0 where it has none there.
pub open spec fn clock_bound(nodes: Seq<NodeView>, replica: u64, n: int) -> nat
    decreases n,
{
    if n <= 0 {
        0
    } else {
        let rest = clock_bound(nodes, replica, n - 1);
        if nodes[n - 1].item.id.replica == replica && nodes[n - 1].item.id.clock >= rest {
            (nodes[n - 1].item.id.clock + 1) as nat
        } else {
            rest
        }
    }
}

/// The clock that the replica writes next.
pub open spec fn next_clock(nodes: Seq<NodeView>, replica: u64) -> nat {
    clock_bound(nodes, replica, nodes.len() as int)
}

/// The clock that a replica writes next lies above all its clocks, and
/// right above one of them.
pub proof fn lemma_clock_bound(nodes: Seq<NodeView>, replica: u64, n: int)
    requires
        wf_nodes(nodes),
        0 <= n <= nodes.len(),
    ensures
        clock_bound(nodes, replica, n) <= u64::MAX,
        forall|i: int|
            0 <= i < n && (#[trigger] nodes[i]).item.id.replica == replica
                ==> nodes[i].item.id.clock < clock_bound(nodes, replica, n),
        clock_bound(nodes, replica, n) > 0 ==> exists|i: int|
            0 <= i < n && (#[trigger] nodes[i]).item.id == (BlockId {
                replica,
                clock: (clock_bound(nodes, replica, n) - 1) as u64,
            }),
    decreases n,
{
    if n > 0 {
        lemma_clock_bound(nodes, replica, n - 1);
        assert(node_ok(nodes, n - 1));
        let rest = clock_bound(nodes, replica, n - 1);
        if nodes[n - 1].item.id.replica == replica && nodes[n - 1].item.id.clock >= rest {
        } else if rest > 0 {
            let i = choose|i: int|
                0 <= i < n - 1 && (#[trigger] nodes[i]).item.id == (BlockId {
                    replica,
                    clock: (rest - 1) as u64,
                });
            assert(nodes[i].item.id.replica == replica);
        }
    }
}

/// The waiting item names an identity of the replica at or after `from`:
/// as its own, or as an origin.
pub open spec fn speaks_of(p: ItemView, replica: u64, from: nat) -> bool {
    ||| p.id.replica == replica && p.id.clock >= from
    ||| p.left is Some && p.left->Some_0.replica == replica && p.left->Some_0.clock >= from
    ||| p.right is Some && p.right->Some_0.replica == replica && p.right->Some_0.clock >= from
}

/// What the replica would write from clock `from` on is spoken of already:
/// by an item that waits, or by an integrated tombstone.
pub open spec fn blocked_from(
    nodes: Seq<NodeView>,
    pending: Seq<ItemView>,
    replica: u64,
    from: nat,
) -> bool {
    ||| exists|i: int| 0 <= i < pending.len() && speaks_of(#[trigger] pending[i], replica, from)
    ||| exists|i: int|
        0 <= i < nodes.len() && (#[trigger] nodes[i]).item.content is Delete
            && nodes[i].item.content->Delete_0.replica == replica
            && nodes[i].item.content->Delete_0.clock >= from
}

/// The tombstone that a replica writes for `target`.
pub open spec fn local_delete(nodes: Seq<NodeView>, replica: u64, target: BlockId) -> ItemView {
    ItemView {
        id: BlockId { replica, clock: next_clock(nodes, replica) as u64 },
        left: None,
        right: None,
        content: ContentView::Delete(target),
    }
}

/// The head that a replica writes for a new shared type.
pub open spec fn local_head(nodes: Seq<NodeView>, replica: u64, kind: TypeKind, name: Seq<char>)
    -> ItemView {
    ItemView {
        id: BlockId { replica, clock: next_clock(nodes, replica) as u64 },
        left: None,
        right: None,
        content: ContentView::Marker(kind, name),
    }
}

/// What a replica writes next is ready, and frees no waiting item, unless
/// it is blocked.
pub proof fn lemma_local_ready(nodes: Seq<NodeView>, pending: Seq<ItemView>, x: ItemView)
    requires
        wf_nodes(nodes),
        settled(nodes, pending),
        x.id.clock == next_clock(nodes, x.id.replica),
        x.id.clock < u64::MAX,
        !blocked_from(nodes, pending, x.id.replica, x.id.clock as nat),
        x.left is Some ==> has_id(nodes, x.left->Some_0),
        x.right is Some ==> has_id(nodes, x.right->Some_0),
    ensures
        ready(nodes, x),
        !waiting(pending, x.id),
        !targeted(nodes, x.id),
        !node_for(nodes, x).deleted,
        settled(integrate_spec(nodes, x), pending),
        next_clock(integrate_spec(nodes, x), x.id.replica) == x.id.clock + 1,
        !(x.content is Delete) ==> !blocked_from(
            integrate_spec(nodes, x),
            pending,
            x.id.replica,
            (x.id.clock + 1) as nat,
        ),
{
    let r = x.id.replica;
    lemma_clock_bound(nodes, r, nodes.len() as int);
    if has_id(nodes, x.id) {
        let i = index_of(nodes, x.id);
        assert(nodes[i].item.id.clock < next_clock(nodes, r));
    }
    if x.id.clock > 0 {
        let i = choose|i: int|
            0 <= i < nodes.len() && (#[trigger] nodes[i]).item.id == (BlockId {
                replica: r,
                clock: (next_clock(nodes, r) - 1) as u64,
            });
        assert(has_id(nodes, BlockId { replica: r, clock: (x.id.clock - 1) as u64 }));
    }
    if waiting(pending, x.id) {
        let i = choose|i: int| 0 <= i < pending.len() && (#[trigger] pending[i]).id == x.id;
        assert(speaks_of(pending[i], r, x.id.clock as nat));
    }
    if targeted(nodes, x.id) {
        let i = choose|i: int|
            0 <= i < nodes.len() && (#[trigger] nodes[i]).item.content == ContentView::Delete(x.id);
        assert(nodes[i].item.content is Delete);
    }
    assert(ready(nodes, x));
    let pos = lemma_slot(nodes, x);
    lemma_integrate(nodes, x);
    let fin = integrate_spec(nodes, x);
    reveal(known_plus);
    assert forall|i: int| 0 <= i < pending.len() implies !ready(fin, #[trigger] pending[i]) by {
        let p = pending[i];
        assert(!speaks_of(p, r, x.id.clock as nat));
        assert(!ready(nodes, p));
        if ready(fin, p) {
            assert(!waiting(Seq::<ItemView>::empty(), p.id));
            assert(!has_id(nodes, p.id));
            if p.id.clock > 0 {
                let pred = BlockId { replica: p.id.replica, clock: (p.id.clock - 1) as u64 };
                assert(!waiting(Seq::<ItemView>::empty(), pred));
                assert(pred != x.id);
                assert(has_id(nodes, pred));
            }
            if p.left is Some {
                assert(!waiting(Seq::<ItemView>::empty(), p.left->Some_0));
                assert(has_id(nodes, p.left->Some_0));
            }
            if p.right is Some {
                assert(!waiting(Seq::<ItemView>::empty(), p.right->Some_0));
                assert(has_id(nodes, p.right->Some_0));
            }
            assert(ready(nodes, p));
        }
    }
    lemma_next_clock_after(nodes, x, pos);
    if !(x.content is Delete) {
        lemma_blocked_after(nodes, pending, x, pos);
    }
}

proof fn lemma_clock_bound_insert(nodes: Seq<NodeView>, fin: Seq<NodeView>, x: ItemView, pos: int, n: int)
    requires
        0 <= pos <= nodes.len(),
        0 <= n <= nodes.len(),
        fin.len() == nodes.len() + 1,
        forall|k: int|
            0 <= k < fin.len() ==> (#[trigger] fin[k]).item.id == (if k == pos {
                x.id
            } else {
                nodes[before_insert(pos, k)].item.id
            }),
        forall|i: int|
            0 <= i < nodes.len() && (#[trigger] nodes[i]).item.id.replica == x.id.replica
                ==> nodes[i].item.id.clock < x.id.clock,
        x.id.clock < u64::MAX,
    ensures
        n <= pos ==> clock_bound(fin, x.id.replica, n) == clock_bound(nodes, x.id.replica, n),
        clock_bound(nodes, x.id.replica, n) <= x.id.clock,
        n >= pos ==> clock_bound(fin, x.id.replica, n + 1) == x.id.clock + 1,
    decreases n,
{
    if n > 0 {
        lemma_clock_bound_insert(nodes, fin, x, pos, n - 1);
        assert(nodes[n - 1].item.id.replica == x.id.replica ==> nodes[n - 1].item.id.clock
            < x.id.clock);
        if n <= pos {
            assert(fin[n - 1].item.id == nodes[n - 1].item.id);
        }
        if n > pos {
            assert(fin[n].item.id == nodes[n - 1].item.id);
        }
    }
    if n >= pos {
        let r = x.id.replica;
        let rest = clock_bound(fin, r, n);
        assert(clock_bound(fin, r, n + 1) == if fin[n].item.id.replica == r && fin[n].item.id.clock
            >= rest {
            (fin[n].item.id.clock + 1) as nat
        } else {
            rest
        });
        if n == pos {
            assert(fin[pos].item.id == x.id);
            assert(rest == clock_bound(nodes, r, n));
        } else {
            assert(fin[n].item.id == nodes[n - 1].item.id);
            assert(rest == x.id.clock + 1);
        }
    }
}

proof fn lemma_next_clock_after(nodes: Seq<NodeView>, x: ItemView, pos: int)
    requires
        wf_nodes(nodes),
        ready(nodes, x),
        splits_at(nodes, node_for(nodes, x).path, pos),
        x.id.clock == next_clock(nodes, x.id.replica),
    ensures
        next_clock(integrate_spec(nodes, x), x.id.replica) == x.id.clock + 1,
{
    lemma_integrate_wf(nodes, x, pos);
    lemma_clock_bound(nodes, x.id.replica, nodes.len() as int);
    let n = node_for(nodes, x);
    let mid = nodes.insert(pos, n);
    let fin = integrate_spec(nodes, x);
    assert forall|k: int| 0 <= k < fin.len() implies (#[trigger] fin[k]).item.id == (if k == pos {
        x.id
    } else {
        nodes[before_insert(pos, k)].item.id
    }) by {
        assert(fin[k].item == mid[k].item);
    }
    lemma_clock_bound_insert(nodes, fin, x, pos, nodes.len() as int);
}

/// An element that a replica writes does not block its next identities.
pub proof fn lemma_blocked_after(nodes: Seq<NodeView>, pending: Seq<ItemView>, x: ItemView, pos: int)
    requires
        wf_nodes(nodes),
        ready(nodes, x),
        splits_at(nodes, node_for(nodes, x).path, pos),
        !blocked_from(nodes, pending, x.id.replica, x.id.clock as nat),
        !(x.content is Delete),
    ensures
        !blocked_from(integrate_spec(nodes, x), pending, x.id.replica, (x.id.clock + 1) as nat),
{
    lemma_integrate_wf(nodes, x, pos);
    let n = node_for(nodes, x);
    let mid = nodes.insert(pos, n);
    let fin = integrate_spec(nodes, x);
    let r = x.id.replica;
    let from = (x.id.clock + 1) as nat;
    if blocked_from(fin, pending, r, from) {
        if exists|i: int| 0 <= i < pending.len() && speaks_of(#[trigger] pending[i], r, from) {
            let i = choose|i: int| 0 <= i < pending.len() && speaks_of(#[trigger] pending[i], r, from);
            assert(speaks_of(pending[i], r, x.id.clock as nat));
        } else {
            let i = choose|i: int|
                0 <= i < fin.len() && (#[trigger] fin[i]).item.content is Delete
                    && fin[i].item.content->Delete_0.replica == r
                    && fin[i].item.content->Delete_0.clock >= from;
            assert(fin[i].item == mid[i].item);
            if i != pos {
                assert(mid[i] == nodes[before_insert(pos, i)]);
                assert(nodes[before_insert(pos, i)].item.content is Delete);
            }
        }
    }
}

/// A tombstone for an integrated item does not block the writer's next
/// identities.
pub proof fn lemma_blocked_after_delete(
    nodes: Seq<NodeView>,
    pending: Seq<ItemView>,
    x: ItemView,
    pos: int,
)
    requires
        wf_nodes(nodes),
        ready(nodes, x),
        splits_at(nodes, node_for(nodes, x).path, pos),
        !blocked_from(nodes, pending, x.id.replica, x.id.clock as nat),
        x.content is Delete,
        !(x.content->Delete_0.replica == x.id.replica && x.content->Delete_0.clock > x.id.clock),
    ensures
        !blocked_from(integrate_spec(nodes, x), pending, x.id.replica, (x.id.clock + 1) as nat),
{
    lemma_integrate_wf(nodes, x, pos);
    let n = node_for(nodes, x);
    let mid = nodes.insert(pos, n);
    let fin = integrate_spec(nodes, x);
    let r = x.id.replica;
    let from = (x.id.clock + 1) as nat;
    if blocked_from(fin, pending, r, from) {
        if exists|i: int| 0 <= i < pending.len() && speaks_of(#[trigger] pending[i], r, from) {
            let i = choose|i: int| 0 <= i < pending.len() && speaks_of(#[trigger] pending[i], r, from);
            assert(speaks_of(pending[i], r, x.id.clock as nat));
        } else {
            let i = choose|i: int|
                0 <= i < fin.len() && (#[trigger] fin[i]).item.content is Delete
                    && fin[i].item.content->Delete_0.replica == r
                    && fin[i].item.content->Delete_0.clock >= from;
            assert(mid[i] == source(nodes, pos, n, i));
            assert(fin[i].item == mid[i].item);
            if i != pos {
                assert(nodes[before_insert(pos, i)].item.content is Delete);
            }
        }
    }
}

/// The path of every node starts with the key of a head that stands at
/// or before it.
pub proof fn lemma_root(nodes: Seq<NodeView>, i: int) -> (j: int)
    requires
        wf_nodes(nodes),
        0 <= i < nodes.len(),
    ensures
        0 <= j <= i,
        nodes[j].path.len() == 1,
        nodes[j].path[0] == nodes[i].path[0],
        nodes[i].path[0] == key_of(nodes[j]),
    decreases i,
{
    assert(node_ok(nodes, i));
    match nodes[i].item.left {
        None => i,
        Some(l) => {
            let p = choose|p: int|
                0 <= p < i && (#[trigger] nodes[p]).item.id == l && nodes[i].path
                    == nodes[p].path.push(key_of(nodes[i]));
            assert(node_ok(nodes, p));
            lemma_root(nodes, p)
        },
    }
}

/// A replica writes an element right behind the node at `l` of a type:
/// the element comes to stand there, and shows at that place among the
/// elements.
pub proof fn lemma_local_insert(nodes: Seq<NodeView>, ty: TypeRef, l: int, x: ItemView)
    requires
        wf_nodes(nodes),
        valid_type(nodes, ty),
        0 <= l < nodes.len(),
        nodes[l].path.len() >= 1,
        nodes[l].path[0] == head_key(nodes, ty),
        x.left == Some(nodes[l].item.id),
        x.right == right_of(nodes, l),
        ready(nodes, x),
        !node_for(nodes, x).deleted,
        elem_of(ty.kind, x.content),
    ensures
        integrate_spec(nodes, x) == nodes.insert(l + 1, node_for(nodes, x)),
        wf_nodes(integrate_spec(nodes, x)),
        valid_type(integrate_spec(nodes, x), ty),
        head_key(integrate_spec(nodes, x), ty) == head_key(nodes, ty),
        shows(node_for(nodes, x), head_key(nodes, ty), ty.kind),
        elements(integrate_spec(nodes, x), ty) == elements(nodes, ty).insert(
            visible_to(nodes, head_key(nodes, ty), ty.kind, l + 1).len() as int,
            node_for(nodes, x),
        ),
        visible_to(integrate_spec(nodes, x), head_key(nodes, ty), ty.kind, l + 2).len()
            == visible_to(nodes, head_key(nodes, ty), ty.kind, l + 1).len() + 1,
        visible_to(nodes, head_key(nodes, ty), ty.kind, l + 1).len() <= elements(nodes, ty).len(),
        right_of(integrate_spec(nodes, x), l + 1) == right_of(nodes, l),
        integrate_spec(nodes, x)[l + 1].item == x,
{
    let n = node_for(nodes, x);
    let hk = head_key(nodes, ty);
    lemma_insert_after(nodes, l, x);
    lemma_integrate_wf(nodes, x, l + 1);
    lemma_head_kept(nodes, x, l + 1, ty);
    let fin = integrate_spec(nodes, x);
    assert(fin =~= nodes.insert(l + 1, n));
    assert(n.path[0] == nodes[l].path[0]);
    lemma_visible_insert(nodes, hk, ty.kind, l + 1, n, nodes.len() as int);
    lemma_visible_insert(nodes, hk, ty.kind, l + 1, n, l + 1);
    lemma_visible_len(nodes, hk, ty.kind, l + 1, nodes.len() as int);
}

/// A replica writes a tombstone for an element that a type shows: the
/// element stops showing, and nothing else changes among the elements.
pub proof fn lemma_local_delete(nodes: Seq<NodeView>, ty: TypeRef, ti: int, x: ItemView)
    requires
        wf_nodes(nodes),
        valid_type(nodes, ty),
        0 <= ti < nodes.len(),
        shows(nodes[ti], head_key(nodes, ty), ty.kind),
        x.left is None,
        x.right is None,
        x.content == ContentView::Delete(nodes[ti].item.id),
        ready(nodes, x),
    ensures
        wf_nodes(integrate_spec(nodes, x)),
        valid_type(integrate_spec(nodes, x), ty),
        head_key(integrate_spec(nodes, x), ty) == head_key(nodes, ty),
        visible_to(nodes, head_key(nodes, ty), ty.kind, ti).len() < elements(nodes, ty).len(),
        elements(nodes, ty)[visible_to(nodes, head_key(nodes, ty), ty.kind, ti).len() as int]
            == nodes[ti],
        elements(integrate_spec(nodes, x), ty) == elements(nodes, ty).remove(
            visible_to(nodes, head_key(nodes, ty), ty.kind, ti).len() as int,
        ),
{
    let n = node_for(nodes, x);
    let hk = head_key(nodes, ty);
    let kind = ty.kind;
    let t = nodes[ti].item.id;
    let pos = lemma_slot(nodes, x);
    lemma_integrate_wf(nodes, x, pos);
    lemma_head_kept(nodes, x, pos, ty);
    let mid = nodes.insert(pos, n);
    let fin = integrate_spec(nodes, x);
    let len = nodes.len() as int;
    assert(n.path.len() == 1);
    assert(!shows(n, hk, kind));
    let tj = if ti < pos {
        ti
    } else {
        ti + 1
    };
    assert(mid[tj] == nodes[ti]);
    assert forall|k: int| 0 <= k < mid.len() && k != tj implies #[trigger] mid[k] == fin[k] by {
        if mid[k].item.id == t {
            if k == pos {
                assert(has_id(nodes, x.id));
            } else {
                let a = before_insert(pos, k);
                assert(mid[k] == nodes[a]);
                if a < ti {
                    assert(nodes[a].item.id != nodes[ti].item.id);
                } else {
                    assert(nodes[ti].item.id != nodes[a].item.id);
                }
            }
        }
    }
    assert(fin[tj].deleted);
    lemma_visible_insert(nodes, hk, kind, pos, n, len);
    lemma_visible_insert(nodes, hk, kind, pos, n, ti);
    lemma_visible_drop(mid, fin, hk, kind, tj, len + 1);
    lemma_visible_len(nodes, hk, kind, ti, ti + 1);
    lemma_visible_len(nodes, hk, kind, ti + 1, len);
    let k = visible_to(nodes, hk, kind, ti).len() as int;
    assert(visible_to(nodes, hk, kind, ti + 1)[k] == nodes[ti]);
    assert(elements(nodes, ty).subrange(0, k + 1)[k] == nodes[ti]);
}

/// A replica writes the head of a new shared type: the handle on it is
/// valid, and the type shows no element.
pub proof fn lemma_local_head(nodes: Seq<NodeView>, x: ItemView)
    requires
        wf_nodes(nodes),
        x.left is None,
        x.right is None,
        x.content is Marker,
        ready(nodes, x),
    ensures
        wf_nodes(integrate_spec(nodes, x)),
        valid_type(
            integrate_spec(nodes, x),
            TypeRef { head: x.id, kind: x.content->Marker_0 },
        ),
        elements(integrate_spec(nodes, x), TypeRef { head: x.id, kind: x.content->Marker_0 }).len()
            == 0,
        integrate_spec(nodes, x)[index_of(integrate_spec(nodes, x), x.id)].item == x,
{
    let ty = TypeRef { head: x.id, kind: x.content->Marker_0 };
    let n = node_for(nodes, x);
    let pos = lemma_slot(nodes, x);
    lemma_integrate_wf(nodes, x, pos);
    let mid = nodes.insert(pos, n);
    let fin = integrate_spec(nodes, x);
    assert(fin =~= mid);
    assert(fin[pos] == n);
    lemma_index_of(fin, pos);
    let hk = key_of(n);
    assert forall|k: int| 0 <= k < fin.len() implies !shows(#[trigger] fin[k], hk, ty.kind) by {
        if shows(fin[k], hk, ty.kind) {
            let j = lemma_root(fin, k);
            assert(key_of(fin[j]) == hk);
            assert(fin[j].item.id == x.id);
            if j < pos {
                assert(fin[j].item.id != fin[pos].item.id);
            } else if j > pos {
                assert(fin[pos].item.id != fin[j].item.id);
            }
            assert(j == pos);
            assert(k != pos);
            assert(path_lt(fin[pos].path, fin[k].path)) by {
                assert(is_prefix(fin[pos].path, fin[k].path));
            }
            if k < pos {
                assert(path_lt(fin[k].path, fin[pos].path));
                lemma_path_lt_asym(fin[k].path, fin[pos].path);
            }
            // a child of the new head would have been integrated before it
            let o = before_insert(pos, k);
            assert(mid[k] == nodes[o]);
            let r = lemma_root(nodes, o);
            assert(key_of(nodes[r]) == hk);
            assert(has_id(nodes, x.id));
        }
    }
    lemma_visible_skip(fin, hk, ty.kind, 0, fin.len() as int);
}

/// Every shared type but the one whose head is `but` is in `after` what
/// it is in `before`: its handle is valid, and it shows the same elements.
#[verifier::opaque]
pub open spec fn others_kept(before: Seq<NodeView>, after: Seq<NodeView>, but: Option<BlockId>)
    -> bool {
    forall|other: TypeRef| #[trigger]
        valid_type(before, other) && Some(other.head) != but ==> valid_type(after, other)
            && elements(after, other) == elements(before, other)
}

/// What `others_kept` says of one shared type.
pub proof fn lemma_others_kept(
    before: Seq<NodeView>,
    after: Seq<NodeView>,
    but: Option<BlockId>,
    other: TypeRef,
)
    requires
        others_kept(before, after, but),
        valid_type(before, other),
        Some(other.head) != but,
    ensures
        valid_type(after, other),
        elements(after, other) == elements(before, other),
{
    reveal(others_kept);
}

/// An order keeps its own shared types.
pub proof fn lemma_others_refl(nodes: Seq<NodeView>, but: Option<BlockId>)
    ensures
        others_kept(nodes, nodes, but),
{
    reveal(others_kept);
}

/// Keeping the other shared types carries over two steps.
pub proof fn lemma_others_trans(
    a: Seq<NodeView>,
    b: Seq<NodeView>,
    c: Seq<NodeView>,
    but: Option<BlockId>,
)
    requires
        others_kept(a, b, but),
        others_kept(b, c, but),
    ensures
        others_kept(a, c, but),
{
    reveal(others_kept);
    assert forall|other: TypeRef| #[trigger]
        valid_type(a, other) && Some(other.head) != but implies valid_type(c, other) && elements(
        c,
        other,
    ) == elements(a, other) by {
        assert(valid_type(b, other));
    }
}

proof fn lemma_heads_differ(nodes: Seq<NodeView>, ty: TypeRef, other: TypeRef)
    requires
        wf_nodes(nodes),
        valid_type(nodes, ty),
        valid_type(nodes, other),
        other.head != ty.head,
    ensures
        head_key(nodes, other) != head_key(nodes, ty),
{
}

/// Writing an element of one type leaves every other type as it is.
pub proof fn lemma_insert_frame(nodes: Seq<NodeView>, ty: TypeRef, l: int, x: ItemView)
    requires
        wf_nodes(nodes),
        valid_type(nodes, ty),
        0 <= l < nodes.len(),
        nodes[l].path.len() >= 1,
        nodes[l].path[0] == head_key(nodes, ty),
        x.left == Some(nodes[l].item.id),
        x.right == right_of(nodes, l),
        ready(nodes, x),
        !node_for(nodes, x).deleted,
        elem_of(ty.kind, x.content),
    ensures
        others_kept(nodes, integrate_spec(nodes, x), Some(ty.head)),
{
    reveal(others_kept);
    let n = node_for(nodes, x);
    let fin = integrate_spec(nodes, x);
    lemma_local_insert(nodes, ty, l, x);
    lemma_insert_after(nodes, l, x);
    assert forall|other: TypeRef| #[trigger]
        valid_type(nodes, other) && Some(other.head) != Some(ty.head) implies valid_type(
        fin,
        other,
    ) && elements(fin, other) == elements(nodes, other) by {
        lemma_heads_differ(nodes, ty, other);
        lemma_head_kept(nodes, x, l + 1, other);
        let hk = head_key(nodes, other);
        assert(!shows(n, hk, other.kind));
        lemma_visible_insert(nodes, hk, other.kind, l + 1, n, nodes.len() as int);
    }
}

/// A tombstone for an element of one type leaves every other type as it
/// is.
pub proof fn lemma_delete_frame(nodes: Seq<NodeView>, ty: TypeRef, ti: int, x: ItemView)
    requires
        wf_nodes(nodes),
        valid_type(nodes, ty),
        0 <= ti < nodes.len(),
        shows(nodes[ti], head_key(nodes, ty), ty.kind),
        x.left is None,
        x.right is None,
        x.content == ContentView::Delete(nodes[ti].item.id),
        ready(nodes, x),
    ensures
        others_kept(nodes, integrate_spec(nodes, x), Some(ty.head)),
{
    reveal(others_kept);
    let n = node_for(nodes, x);
    let t = nodes[ti].item.id;
    let pos = lemma_slot(nodes, x);
    lemma_integrate_wf(nodes, x, pos);
    let mid = nodes.insert(pos, n);
    let fin = integrate_spec(nodes, x);
    let len = nodes.len() as int;
    let tj = if ti < pos {
        ti
    } else {
        ti + 1
    };
    assert(mid[tj] == nodes[ti]);
    assert(n.path.len() == 1);
    assert forall|k: int| 0 <= k < mid.len() && k != tj implies #[trigger] mid[k] == fin[k] by {
        if mid[k].item.id == t {
            if k == pos {
                assert(has_id(nodes, x.id));
            } else {
                let a = before_insert(pos, k);
                assert(mid[k] == nodes[a]);
                if a < ti {
                    assert(nodes[a].item.id != nodes[ti].item.id);
                } else {
                    assert(nodes[ti].item.id != nodes[a].item.id);
                }
            }
        }
    }
    assert(fin[tj].path == mid[tj].path);
    assert forall|other: TypeRef| #[trigger]
        valid_type(nodes, other) && Some(other.head) != Some(ty.head) implies valid_type(
        fin,
        other,
    ) && elements(fin, other) == elements(nodes, other) by {
        lemma_heads_differ(nodes, ty, other);
        lemma_head_kept(nodes, x, pos, other);
        let hk = head_key(nodes, other);
        assert(!shows(n, hk, other.kind));
        lemma_visible_insert(nodes, hk, other.kind, pos, n, len);
        assert forall|k: int| 0 <= k < len + 1 implies shows(#[trigger] mid[k], hk, other.kind)
            == shows(fin[k], hk, other.kind) && (shows(mid[k], hk, other.kind) ==> mid[k]
            == fin[k]) by {
            if k != tj {
                assert(mid[k] == fin[k]);
            }
        }
        lemma_visible_same(mid, fin, hk, other.kind, len + 1);
    }
}

/// The head of a new shared type leaves every shared type as it is.
pub proof fn lemma_head_frame(nodes: Seq<NodeView>, x: ItemView)
    requires
        wf_nodes(nodes),
        x.left is None,
        x.right is None,
        x.content is Marker,
        ready(nodes, x),
    ensures
        others_kept(nodes, integrate_spec(nodes, x), None),
{
    reveal(others_kept);
    let n = node_for(nodes, x);
    let pos = lemma_slot(nodes, x);
    lemma_integrate_wf(nodes, x, pos);
    let fin = integrate_spec(nodes, x);
    assert(fin =~= nodes.insert(pos, n));
    assert(n.path.len() == 1);
    assert forall|other: TypeRef| #[trigger]
        valid_type(nodes, other) && Some(other.head) != None::<BlockId> implies valid_type(
        fin,
        other,
    ) && elements(fin, other) == elements(nodes, other) by {
        lemma_head_kept(nodes, x, pos, other);
        let hk = head_key(nodes, other);
        lemma_visible_insert(nodes, hk, other.kind, pos, n, nodes.len() as int);
    }
}

/// The index of the node behind which an element written at `index` of
/// the type comes to stand: the element that shows before it, or the head.
pub open spec fn left_index(nodes: Seq<NodeView>, ty: TypeRef, index: int) -> int {
    if index <= 0 {
        index_of(nodes, ty.head)
    } else {
        index_of(nodes, elements(nodes, ty)[index - 1].item.id)
    }
}

/// The items that a replica writes for contents put into a type at
/// `index`: the first with the node before that place as its left origin, each
/// other with its forerunner; all with what follows that node in the sequence
/// as their right origin.
pub open spec fn written(
    nodes: Seq<NodeView>,
    replica: u64,
    ty: TypeRef,
    index: int,
    contents: Seq<ContentView>,
) -> Seq<ItemView> {
    let l = left_index(nodes, ty, index);
    let c = next_clock(nodes, replica);
    Seq::new(
        contents.len(),
        |k: int|
            ItemView {
                id: BlockId { replica, clock: (c + k) as u64 },
                left: Some(
                    if k == 0 {
                        nodes[l].item.id
                    } else {
                        BlockId { replica, clock: (c + k - 1) as u64 }
                    },
                ),
                right: right_of(nodes, l),
                content: contents[k],
            },
    )
}

/// The tombstones that a replica writes for the items with these
/// identities.
pub open spec fn tombstones(nodes: Seq<NodeView>, replica: u64, targets: Seq<BlockId>) -> Seq<
    ItemView,
> {
    let c = next_clock(nodes, replica);
    Seq::new(
        targets.len(),
        |k: int|
            ItemView {
                id: BlockId { replica, clock: (c + k) as u64 },
                left: None,
                right: None,
                content: ContentView::Delete(targets[k]),
            },
    )
}

/// The identities of a run of nodes.
pub open spec fn ids_of(els: Seq<NodeView>) -> Seq<BlockId> {
    Seq::new(els.len(), |k: int| els[k].item.id)
}

} // verus!
