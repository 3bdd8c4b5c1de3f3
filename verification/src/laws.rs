//! What holds of every document, whatever is done to it.

use crate::item::{BlockId, ItemView};
use crate::shared::{elements, head_key, lemma_visible_shows, shows, TypeRef};
use crate::store::{
    above, carried, extends, known_plus, lemma_insert, lemma_insert_pending, waiting, wf_nodes,
    wf_store, NodeView, StoreView,
};
use crate::sync::{apply_spec, lemma_apply};
use vstd::prelude::*;

verus! {

/// Tombstones are for good: an item that bears one in some state of a
/// document shows in no shared type of any later state. (Every operation
/// leaves a state that `extends` the one before it, and `extends` carries
/// over a sequence of operations.)
pub proof fn lemma_tombstone_stays(
    before: Seq<NodeView>,
    after: Seq<NodeView>,
    i: int,
    ty: TypeRef,
    k: int,
)
    requires
        wf_nodes(after),
        extends(before, after),
        0 <= i < before.len(),
        before[i].deleted,
        0 <= k < elements(after, ty).len(),
    ensures
        elements(after, ty)[k].item.id != before[i].item.id,
        !elements(after, ty)[k].deleted,
{
    reveal(extends);
    assert(carried(before[i], after));
    let j = choose|j: int| 0 <= j < after.len() && above(before[i], #[trigger] after[j]);
    let hk = head_key(after, ty);
    lemma_visible_shows(after, hk, ty.kind, after.len() as int, k);
    let m = choose|m: int|
        0 <= m < after.len() && #[trigger] after[m] == elements(after, ty)[k];
    if after[m].item.id == before[i].item.id {
        if m < j {
            assert(after[m].item.id != after[j].item.id);
        } else if j < m {
            assert(after[j].item.id != after[m].item.id);
        }
    }
}

/// The store knows every identity among `ids`.
pub open spec fn knows_all(s: StoreView, items: Seq<ItemView>) -> bool {
    forall|k: int| 0 <= k < items.len() ==> s.known((#[trigger] items[k]).id)
}

proof fn lemma_known_kept(s: StoreView, x: ItemView, id: BlockId)
    requires
        wf_store(s),
        s.known(id),
    ensures
        s.insert(x).known(id),
{
    lemma_insert(s, x);
    if s.insert_result(x) is Ok {
        reveal(known_plus);
    }
}

proof fn lemma_known_added(s: StoreView, x: ItemView)
    requires
        wf_store(s),
        s.pending.len() < s.limit,
    ensures
        s.insert(x).known(x.id),
{
    lemma_insert(s, x);
    lemma_insert_pending(s, x);
    if s.insert_result(x) is Ok {
        reveal(known_plus);
    }
}

/// After items are applied the store knows each of them, where the
/// waiting room could hold them all.
pub proof fn lemma_apply_knows(s: StoreView, items: Seq<ItemView>)
    requires
        wf_store(s),
        s.pending.len() + items.len() <= s.limit,
    ensures
        knows_all(apply_spec(s, items), items),
    decreases items.len(),
{
    if items.len() > 0 {
        let init = items.drop_last();
        let mid = apply_spec(s, init);
        lemma_apply_knows(s, init);
        lemma_apply(s, init);
        lemma_known_added(mid, items.last());
        assert forall|k: int| 0 <= k < items.len() implies apply_spec(s, items).known(
            (#[trigger] items[k]).id,
        ) by {
            if k < items.len() - 1 {
                assert(init[k] == items[k]);
                lemma_known_kept(mid, items.last(), items[k].id);
            }
        }
    }
}

/// Items that the store knows change nothing.
pub proof fn lemma_apply_known(s: StoreView, items: Seq<ItemView>)
    requires
        knows_all(s, items),
    ensures
        apply_spec(s, items) == s,
    decreases items.len(),
{
    if items.len() > 0 {
        let init = items.drop_last();
        assert forall|k: int| 0 <= k < init.len() implies s.known((#[trigger] init[k]).id) by {
            assert(init[k] == items[k]);
        }
        lemma_apply_known(s, init);
        assert(s.known(items[items.len() - 1].id));
    }
}

/// Merging is idempotent: applying the same items a second time changes
/// nothing.
pub proof fn lemma_apply_idempotent(s: StoreView, items: Seq<ItemView>)
    requires
        wf_store(s),
        s.pending.len() + items.len() <= s.limit,
    ensures
        apply_spec(apply_spec(s, items), items) == apply_spec(s, items),
{
    lemma_apply_knows(s, items);
    lemma_apply_known(apply_spec(s, items), items);
}

} // verus!
