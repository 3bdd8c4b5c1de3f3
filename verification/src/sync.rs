//! What two replicas exchange: state vectors, and the items that one has
//! and the other lacks.

use crate::any::{holds_at, lemma_holds_split, CodecError};
use crate::doc::Doc;
use crate::item::{items_view, Item, ItemView};
use crate::shared::{clock_bound, next_clock};
use crate::store::{
    extends, lemma_extends_refl, lemma_extends_trans, lemma_insert, node_ok, wf_store, NodeView,
    StoreView,
};
use crate::update::{decode_update, update_items};
use crate::varint::{
    lemma_cap_zero, lemma_varint_at_bounds, lemma_varint_round_trip, read_varint, varint_at,
    varint_bytes, write_varint,
};
use vstd::prelude::*;

verus! {

/// For each replica the clock that it writes next, as far as a document
/// has seen: pairs of replica and clock, a replica once at most.
pub struct StateVector {
    pub entries: Vec<(u64, u64)>,
}

/// The clock recorded for the replica among the first `n` entries; 0 where
/// there is none.
pub open spec fn clock_in(entries: Seq<(u64, u64)>, replica: u64, n: int) -> u64
    decreases n,
{
    if n <= 0 {
        0
    } else if entries[n - 1].0 == replica {
        entries[n - 1].1
    } else {
        clock_in(entries, replica, n - 1)
    }
}

impl StateVector {
    /// The clock recorded for the replica; 0 where there is none.
    pub open spec fn clock_of(&self, replica: u64) -> u64 {
        clock_in(self.entries@, replica, self.entries.len() as int)
    }

    /// A state vector without entries.
    pub fn new() -> (r: StateVector)
        ensures
            r.entries.len() == 0,
    {
        StateVector { entries: Vec::new() }
    }

    /// The clock recorded for the replica; 0 where there is none.
    pub fn get(&self, replica: u64) -> (r: u64)
        ensures
            r == self.clock_of(replica),
    {
        let mut n: usize = self.entries.len();
        while n > 0
            invariant
                n <= self.entries.len(),
                self.clock_of(replica) == clock_in(self.entries@, replica, n as int),
            decreases n,
        {
            if self.entries[n - 1].0 == replica {
                return self.entries[n - 1].1;
            }
            n -= 1;
        }
        0
    }

    /// Records `clock` for `replica`, in place of what was recorded for it.
    pub fn set(&mut self, replica: u64, clock: u64)
        ensures
            final(self).clock_of(replica) == clock,
            forall|r: u64| r != replica ==> final(self).clock_of(r) == old(self).clock_of(r),
    {
        self.entries.push((replica, clock));
        assert forall|r: u64| r != replica implies self.clock_of(r) == old(self).clock_of(r) by {
            lemma_clock_in_prefix(self.entries@, old(self).entries@, r, old(self).entries.len() as int);
        }
    }

    /// The encoding: the number of entries, then replica and clock of each.
    /// Decoding it gives the entries back.
    pub fn encode(&self) -> (r: Vec<u8>)
        ensures
            r@ == vector_bytes(self.entries@, 0),
            vector_at(r@) == Ok::<Seq<(u64, u64)>, CodecError>(self.entries@),
    {
        let mut out: Vec<u8> = Vec::new();
        let count = self.entries.len();
        proof {
            lemma_vector_round_trip(self.entries@);
        }
        write_varint(count as u64, &mut out);
        let ghost head = out@;
        let mut i: usize = 0;
        assert(head =~= varint_bytes(self.entries.len() as nat));
        while i < self.entries.len()
            invariant
                i <= self.entries.len(),
                out@ + pairs_bytes(self.entries@, i as int) == head + pairs_bytes(
                    self.entries@,
                    0,
                ),
            decreases self.entries.len() - i,
        {
            let ghost before = out@;
            write_varint(self.entries[i].0, &mut out);
            write_varint(self.entries[i].1, &mut out);
            assert(out@ + pairs_bytes(self.entries@, i + 1) =~= before + (varint_bytes(
                self.entries[i as int].0 as nat,
            ) + varint_bytes(self.entries[i as int].1 as nat) + pairs_bytes(
                self.entries@,
                i + 1,
            )));
            i += 1;
        }
        assert(out@ + pairs_bytes(self.entries@, i as int) =~= out@);
        out
    }

    /// The state vector that a buffer holds.
    pub fn decode(b: &[u8]) -> (r: Result<StateVector, CodecError>)
        ensures
            match r {
                Ok(sv) => vector_at(b@) == Ok::<Seq<(u64, u64)>, CodecError>(sv.entries@),
                Err(e) => vector_at(b@) == Err::<Seq<(u64, u64)>, CodecError>(e),
            },
    {
        let (count, start) = match read_varint(b, 0) {
            None => {
                return Err(CodecError::Truncated);
            },
            Some(x) => x,
        };
        proof {
            lemma_varint_at_bounds(b@, 0, 0);
        }
        let mut entries: Vec<(u64, u64)> = Vec::new();
        let mut pos: usize = start;
        let mut rest: u64 = count;
        while rest > 0
            invariant
                pos <= b.len(),
                vector_at(b@) == pairs_at(b@, pos as int, rest as nat, entries@),
            decreases rest,
        {
            let (replica, mid) = match read_varint(b, pos) {
                None => {
                    return Err(CodecError::Truncated);
                },
                Some(x) => x,
            };
            proof {
                lemma_varint_at_bounds(b@, pos as int, 0);
            }
            let (clock, next) = match read_varint(b, mid) {
                None => {
                    return Err(CodecError::Truncated);
                },
                Some(x) => x,
            };
            proof {
                lemma_varint_at_bounds(b@, mid as int, 0);
            }
            entries.push((replica, clock));
            pos = next;
            rest = rest - 1;
        }
        Ok(StateVector { entries })
    }
}

proof fn lemma_clock_in_prefix(a: Seq<(u64, u64)>, b: Seq<(u64, u64)>, replica: u64, n: int)
    requires
        0 <= n <= b.len(),
        n <= a.len(),
        forall|i: int| 0 <= i < n ==> a[i] == b[i],
        forall|i: int| n <= i < a.len() ==> (#[trigger] a[i]).0 != replica,
    ensures
        clock_in(a, replica, a.len() as int) == clock_in(b, replica, n),
    decreases a.len() + n,
{
    if a.len() > n {
        let shorter = a.drop_last();
        lemma_clock_in_prefix(shorter, b, replica, n);
        assert(a[a.len() - 1].0 != replica);
        lemma_clock_in_same(a, shorter, replica, shorter.len() as int);
    } else {
        lemma_clock_in_same(a, b, replica, n);
    }
}

proof fn lemma_clock_in_same(a: Seq<(u64, u64)>, b: Seq<(u64, u64)>, replica: u64, n: int)
    requires
        0 <= n <= a.len(),
        n <= b.len(),
        forall|i: int| 0 <= i < n ==> a[i] == b[i],
    ensures
        clock_in(a, replica, n) == clock_in(b, replica, n),
    decreases n,
{
    if n > 0 {
        lemma_clock_in_same(a, b, replica, n - 1);
    }
}

/// The pairs from index `i` on, on the wire.
pub open spec fn pairs_bytes(entries: Seq<(u64, u64)>, i: int) -> Seq<u8>
    decreases entries.len() - i,
{
    if i < 0 || i >= entries.len() {
        Seq::empty()
    } else {
        varint_bytes(entries[i].0 as nat) + varint_bytes(entries[i].1 as nat) + pairs_bytes(
            entries,
            i + 1,
        )
    }
}

/// A state vector on the wire.
pub open spec fn vector_bytes(entries: Seq<(u64, u64)>, i: int) -> Seq<u8> {
    varint_bytes(entries.len()) + pairs_bytes(entries, i)
}

/// `n` pairs from `pos` on, appended to `acc`.
pub open spec fn pairs_at(b: Seq<u8>, pos: int, n: nat, acc: Seq<(u64, u64)>) -> Result<
    Seq<(u64, u64)>,
    CodecError,
>
    decreases n,
{
    if n == 0 {
        Ok(acc)
    } else {
        match varint_at(b, pos, 0) {
            None => Err(CodecError::Truncated),
            Some((replica, mid)) => match varint_at(b, mid, 0) {
                None => Err(CodecError::Truncated),
                Some((clock, next)) => pairs_at(
                    b,
                    next,
                    (n - 1) as nat,
                    acc.push((replica as u64, clock as u64)),
                ),
            },
        }
    }
}

/// The state vector at the start of a buffer.
pub open spec fn vector_at(b: Seq<u8>) -> Result<Seq<(u64, u64)>, CodecError> {
    match varint_at(b, 0, 0) {
        None => Err(CodecError::Truncated),
        Some((count, start)) => pairs_at(b, start, count, Seq::empty()),
    }
}

proof fn lemma_pairs_round_trip(
    b: Seq<u8>,
    pos: int,
    entries: Seq<(u64, u64)>,
    i: int,
    acc: Seq<(u64, u64)>,
)
    requires
        0 <= i <= entries.len(),
        holds_at(b, pos, pairs_bytes(entries, i)),
    ensures
        pairs_at(b, pos, (entries.len() - i) as nat, acc) == Ok::<Seq<(u64, u64)>, CodecError>(
            acc + entries.subrange(i, entries.len() as int),
        ),
    decreases entries.len() - i,
{
    if i == entries.len() {
        assert(acc + entries.subrange(i, entries.len() as int) =~= acc);
    } else {
        let r = varint_bytes(entries[i].0 as nat);
        let c = varint_bytes(entries[i].1 as nat);
        let rest = pairs_bytes(entries, i + 1);
        assert(pairs_bytes(entries, i) =~= r + (c + rest));
        lemma_holds_split(b, pos, r, c + rest);
        lemma_holds_split(b, pos + r.len(), c, rest);
        lemma_cap_zero();
        lemma_varint_round_trip(b, pos, entries[i].0 as nat, 0);
        lemma_varint_round_trip(b, pos + r.len(), entries[i].1 as nat, 0);
        lemma_pairs_round_trip(b, pos + r.len() + c.len(), entries, i + 1, acc.push(entries[i]));
        assert(acc.push(entries[i]) + entries.subrange(i + 1, entries.len() as int) =~= acc
            + entries.subrange(i, entries.len() as int));
    }
}

/// Decoding an encoded state vector gives its entries back.
pub proof fn lemma_vector_round_trip(entries: Seq<(u64, u64)>)
    requires
        entries.len() <= u64::MAX,
    ensures
        vector_at(vector_bytes(entries, 0)) == Ok::<Seq<(u64, u64)>, CodecError>(entries),
{
    let b = vector_bytes(entries, 0);
    let head = varint_bytes(entries.len());
    assert(b.subrange(0, b.len() as int) =~= b);
    lemma_holds_split(b, 0, head, pairs_bytes(entries, 0));
    lemma_cap_zero();
    lemma_varint_round_trip(b, 0, entries.len(), 0);
    lemma_pairs_round_trip(b, head.len() as int, entries, 0, Seq::empty());
    assert(Seq::<(u64, u64)>::empty() + entries.subrange(0, entries.len() as int) =~= entries);
}

/// Why an update was not applied.
#[derive(Clone, Copy, Debug, PartialEq, Eq, Structural)]
pub enum UpdateError {
    /// The buffer is no update.
    Codec(CodecError),
    /// The waiting room could not hold the items of the update.
    PendingFull,
    /// A transaction is open on the document.
    TransactionOpen,
}

/// The items among the first `n` nodes that a replica with this state
/// vector lacks, in causal order.
pub open spec fn missing(nodes: Seq<NodeView>, seen: StateVector, n: int) -> Seq<ItemView>
    decreases n,
{
    if n <= 0 {
        Seq::empty()
    } else if nodes[n - 1].item.id.clock >= seen.clock_of(nodes[n - 1].item.id.replica) {
        missing(nodes, seen, n - 1).push(nodes[n - 1].item)
    } else {
        missing(nodes, seen, n - 1)
    }
}

/// The store after the items are inserted one after another; an item that
/// the store knows already changes nothing.
pub open spec fn apply_spec(s: StoreView, items: Seq<ItemView>) -> StoreView
    decreases items.len(),
{
    if items.len() == 0 {
        s
    } else {
        apply_spec(s, items.drop_last()).insert(items.last())
    }
}

/// Applying items keeps a store well formed, loses nothing, and lets at
/// most as many items wait as are applied.
pub proof fn lemma_apply(s: StoreView, items: Seq<ItemView>)
    requires
        wf_store(s),
    ensures
        wf_store(apply_spec(s, items)),
        extends(s.nodes, apply_spec(s, items).nodes),
        apply_spec(s, items).limit == s.limit,
        apply_spec(s, items).pending.len() <= s.pending.len() + items.len(),
    decreases items.len(),
{
    if items.len() == 0 {
        lemma_extends_refl(s.nodes);
    } else {
        let before = apply_spec(s, items.drop_last());
        lemma_apply(s, items.drop_last());
        lemma_insert(before, items.last());
        lemma_extends_trans(s.nodes, before.nodes, before.insert(items.last()).nodes);
        crate::store::lemma_insert_pending(before, items.last());
    }
}

impl Doc {
    /// For each replica the clock that it writes next, as far as this
    /// document has integrated its items.
    pub fn state_vector(&self) -> (r: StateVector)
        requires
            self.wf(),
        ensures
            forall|replica: u64| r.clock_of(replica) == next_clock(self.nodes(), replica),
    {
        let mut sv = StateVector::new();
        let mut i: usize = 0;
        while i < self.store.nodes.len()
            invariant
                self.wf(),
                i <= self.store.nodes.len(),
                forall|replica: u64| #[trigger]
                    sv.clock_of(replica) == clock_bound(self.nodes(), replica, i as int),
            decreases self.store.nodes.len() - i,
        {
            let id = self.store.nodes[i].item.id;
            proof {
                assert(node_ok(self.nodes(), i as int));
                assert(self.nodes()[i as int].item.id == id);
            }
            let seen = sv.get(id.replica);
            if id.clock >= seen {
                sv.set(id.replica, id.clock + 1);
            }
            i += 1;
        }
        sv
    }

    /// The integrated items that a replica with this state vector lacks,
    /// in causal order.
    pub fn diff(&self, seen: &StateVector) -> (r: Vec<Item>)
        requires
            self.wf(),
        ensures
            items_view(r@) == missing(self.nodes(), *seen, self.nodes().len() as int),
    {
        let mut out: Vec<Item> = Vec::new();
        let mut i: usize = 0;
        assert(items_view(out@) =~= Seq::empty());
        while i < self.store.nodes.len()
            invariant
                i <= self.store.nodes.len(),
                items_view(out@) == missing(self.nodes(), *seen, i as int),
            decreases self.store.nodes.len() - i,
        {
            let item = &self.store.nodes[i].item;
            assert(self.nodes()[i as int].item == item@);
            if item.id.clock >= seen.get(item.id.replica) {
                let ghost before = items_view(out@);
                out.push(item.cloned());
                assert(items_view(out@) =~= before.push(item@));
            }
            i += 1;
        }
        out
    }

    /// Inserts the items one after another. An item that the store knows
    /// already is passed over, and so is one that would have to wait where
    /// the waiting room is full.
    pub fn apply_items(&mut self, items: Vec<Item>)
        requires
            old(self).wf(),
        ensures
            final(self).wf(),
            final(self).replica == old(self).replica,
            final(self).busy == old(self).busy,
            final(self).store@ == apply_spec(old(self).store@, items_view(items@)),
            extends(old(self).nodes(), final(self).nodes()),
    {
        let ghost all = items_view(items@);
        let ghost start = self.store@;
        let mut items = items;
        let mut done: Ghost<Seq<ItemView>> = Ghost(Seq::empty());
        proof {
            lemma_extends_refl(self.nodes());
        }
        // The items are taken from the back of a reversed vector, so that
        // each is moved into the store and none is copied.
        reverse(&mut items);
        while items.len() > 0
            invariant
                self.wf(),
                self.replica == old(self).replica,
                self.busy == old(self).busy,
                start == old(self).store@,
                wf_store(start),
                done@.len() + items.len() == all.len(),
                forall|k: int| 0 <= k < done@.len() ==> done@[k] == all[k],
                forall|k: int|
                    0 <= k < items.len() ==> (#[trigger] items[k])@ == all[all.len() - 1 - k],
                self.store@ == apply_spec(start, done@),
                extends(start.nodes, self.store@.nodes),
            decreases items.len(),
        {
            let ghost before = self.store@;
            let item = items.pop().unwrap();
            proof {
                lemma_insert(before, item@);
                lemma_extends_trans(start.nodes, before.nodes, before.insert(item@).nodes);
                assert(done@.push(item@).drop_last() =~= done@);
            }
            let _ = self.store.insert(item);
            proof {
                done@ = done@.push(item@);
            }
        }
        assert(done@ =~= all);
    }

    /// The document of `replica` that holds what the update carries.
    pub fn from_update(replica: u64, bytes: &[u8]) -> (r: Result<Doc, UpdateError>)
        ensures
            match r {
                Ok(doc) => doc.wf() && doc.replica == replica && !doc.busy && update_items(bytes@)
                    is Ok && doc.store@ == apply_spec(
                    crate::merge::empty_store(usize::MAX as nat),
                    update_items(bytes@)->Ok_0,
                ),
                Err(e) => match update_items(bytes@) {
                    Err(c) => e == UpdateError::Codec(c),
                    Ok(items) => e == UpdateError::PendingFull && items.len() > usize::MAX,
                },
            },
    {
        let mut doc = Doc::new(replica);
        assert(doc.store@.nodes =~= Seq::empty());
        assert(doc.store@.pending =~= Seq::empty());
        match doc.apply_update(bytes) {
            Ok(_) => Ok(doc),
            Err(e) => Err(e),
        }
    }

    /// Decodes an update and inserts its items. Nothing changes unless the
    /// whole buffer decodes and the waiting room could hold all its items.
    pub fn apply_update(&mut self, bytes: &[u8]) -> (r: Result<(), UpdateError>)
        requires
            old(self).wf(),
        ensures
            final(self).wf(),
            final(self).replica == old(self).replica,
            final(self).busy == old(self).busy,
            extends(old(self).nodes(), final(self).nodes()),
            r == apply_result(*old(self), bytes@),
            match r {
                Ok(_) => final(self).store@ == apply_spec(
                    old(self).store@,
                    update_items(bytes@)->Ok_0,
                ),
                Err(_) => final(self).store@ == old(self).store@,
            },
    {
        proof {
            lemma_extends_refl(self.nodes());
        }
        if self.busy {
            return Err(UpdateError::TransactionOpen);
        }
        let items = match decode_update(bytes) {
            Err(e) => {
                return Err(UpdateError::Codec(e));
            },
            Ok(items) => items,
        };
        if items.len() > self.store.pending_limit - self.store.pending.len() {
            return Err(UpdateError::PendingFull);
        }
        self.apply_items(items);
        Ok(())
    }
}

/// What `apply_update` answers.
pub open spec fn apply_result(doc: Doc, bytes: Seq<u8>) -> Result<(), UpdateError> {
    if doc.busy {
        Err(UpdateError::TransactionOpen)
    } else {
        match update_items(bytes) {
            Err(e) => Err(UpdateError::Codec(e)),
            Ok(items) => if doc.store@.pending.len() + items.len() > doc.store@.limit {
                Err(UpdateError::PendingFull)
            } else {
                Ok(())
            },
        }
    }
}

/// Turns the vector round.
fn reverse(items: &mut Vec<Item>)
    ensures
        final(items).len() == old(items).len(),
        forall|k: int|
            0 <= k < old(items).len() ==> (#[trigger] final(items)[k])@ == old(items)[old(
                items,
            ).len() - 1 - k]@,
{
    let mut out: Vec<Item> = Vec::new();
    let ghost all = items@;
    while items.len() > 0
        invariant
            out.len() + items.len() == all.len(),
            forall|k: int| 0 <= k < items.len() ==> #[trigger] items[k] == all[k],
            forall|k: int| 0 <= k < out.len() ==> #[trigger] out[k] == all[all.len() - 1 - k],
        decreases items.len(),
    {
        let item = items.pop().unwrap();
        out.push(item);
    }
    *items = out;
}

} // verus!
