//! The replicated document: a block store, the replica that writes into it,
//! and the shared types that read it.

use crate::any::{Any, AnyView};
use crate::item::{items_view, BlockId, Content, ContentView, Item, ItemView, TypeKind};
use crate::shared::{
    blocked_from, clock_bound, elem_of, elements, head_key, ids_of, is_head, left_index,
    lemma_block_inside, lemma_block_outside, lemma_clock_bound, lemma_delete_frame,
    lemma_head_frame, lemma_insert_frame, lemma_local_delete, lemma_local_head, lemma_local_insert,
    lemma_local_ready, lemma_others_refl, lemma_others_trans, lemma_visible_skip, local_delete,
    local_head, next_clock, others_kept, right_of, shows, speaks_of, tombstones, valid_type,
    visible_to, written, TypeRef,
};
use crate::store::{
    extends, has_id, index_of, integrate_spec, lemma_drain_settled, lemma_extends_refl,
    lemma_extends_trans, lemma_index_of, lemma_insert, lemma_integrate, lemma_slot, node_for,
    node_ok, ready, waiting, BlockStore, NodeView,
};
use vstd::prelude::*;

verus! {

/// Why a document did not do what was asked.
#[derive(Clone, Copy, Debug, PartialEq, Eq, Structural)]
pub enum DocError {
    /// The handle names no shared type of its kind in this document.
    UnknownType,
    /// The content is not what a type of this kind holds.
    KindMismatch,
    /// The index lies beyond the elements of the type.
    OutOfBounds,
    /// The identities that the replica would write are spoken of already,
    /// or its clock is used up.
    Blocked,
    /// Another transaction is open on the document.
    TransactionOpen,
    /// The transaction is not open.
    TransactionClosed,
}

/// A replica's copy of the document.
pub struct Doc {
    /// The replica that writes into this copy.
    pub replica: u64,
    pub store: BlockStore,
    /// Whether a transaction is open.
    pub busy: bool,
}

/// The contents of a run of nodes.
pub open spec fn contents_of(els: Seq<NodeView>) -> Seq<ContentView> {
    Seq::new(els.len(), |i: int| els[i].item.content)
}

/// The views of a vector of contents.
pub open spec fn contents_view(contents: Seq<Content>) -> Seq<ContentView> {
    Seq::new(contents.len(), |i: int| contents[i]@)
}

/// The order with the items integrated one after another.
pub open spec fn integrate_all(nodes: Seq<NodeView>, items: Seq<ItemView>) -> Seq<NodeView>
    decreases items.len(),
{
    if items.len() == 0 {
        nodes
    } else {
        integrate_spec(integrate_all(nodes, items.drop_last()), items.last())
    }
}

/// Every item of the batch is ready when its turn comes: the batch is in
/// an order in which each item follows what it depends on.
#[verifier::opaque]
pub open spec fn steady(base: Seq<NodeView>, u: Seq<ItemView>) -> bool {
    forall|k: int|
        0 <= k < u.len() ==> ready(integrate_all(base, u.subrange(0, k)), #[trigger] u[k])
}

/// The batch of no items is steady.
pub proof fn lemma_steady_none(base: Seq<NodeView>)
    ensures
        steady(base, Seq::empty()),
{
    reveal(steady);
}

/// A steady batch stays steady with one more item that is ready behind it.
pub proof fn lemma_steady_push(base: Seq<NodeView>, u: Seq<ItemView>, x: ItemView)
    requires
        steady(base, u),
        ready(integrate_all(base, u), x),
    ensures
        steady(base, u.push(x)),
{
    reveal(steady);
    let w = u.push(x);
    assert forall|k: int| 0 <= k < w.len() implies ready(
        integrate_all(base, w.subrange(0, k)),
        #[trigger] w[k],
    ) by {
        if k < u.len() {
            assert(w.subrange(0, k) =~= u.subrange(0, k));
            assert(w[k] == u[k]);
        } else {
            assert(w.subrange(0, k) =~= u);
        }
    }
}

/// The error with which `insert_run` answers; `None` where it succeeds.
pub open spec fn insert_error(doc: Doc, ty: TypeRef, index: nat, contents: Seq<ContentView>)
    -> Option<DocError> {
    if !valid_type(doc.nodes(), ty) {
        Some(DocError::UnknownType)
    } else if !all_elems(ty.kind, contents) {
        Some(DocError::KindMismatch)
    } else if index > doc.contents(ty).len() {
        Some(DocError::OutOfBounds)
    } else if doc.blocked(contents.len()) {
        Some(DocError::Blocked)
    } else {
        None
    }
}

/// The error with which `delete_run` answers; `None` where it succeeds.
pub open spec fn delete_error(doc: Doc, ty: TypeRef, index: nat, count: nat) -> Option<DocError> {
    if !valid_type(doc.nodes(), ty) {
        Some(DocError::UnknownType)
    } else if index + count > doc.contents(ty).len() {
        Some(DocError::OutOfBounds)
    } else if doc.blocked(count) {
        Some(DocError::Blocked)
    } else {
        None
    }
}

/// The characters of a run of contents.
pub open spec fn chars_of(contents: Seq<ContentView>) -> Seq<char> {
    Seq::new(contents.len(), |i: int| contents[i]->Char_0)
}

/// The values of a run of contents.
pub open spec fn values_of(contents: Seq<ContentView>) -> Seq<AnyView> {
    Seq::new(contents.len(), |i: int| contents[i]->Value_0)
}

/// The content is an entry for `key`.
pub open spec fn is_entry(c: ContentView, key: Seq<char>) -> bool {
    c is Entry && c->Entry_0 == key
}

/// The index of the first entry for `key` from `from` on, or the number of
/// contents where there is none.
pub open spec fn first_entry(contents: Seq<ContentView>, key: Seq<char>, from: int) -> int
    decreases contents.len() - from,
{
    if from < 0 || from >= contents.len() {
        contents.len() as int
    } else if is_entry(contents[from], key) {
        from
    } else {
        first_entry(contents, key, from + 1)
    }
}

/// The value of `key`: that of its first entry in causal order.
pub open spec fn lookup(contents: Seq<ContentView>, key: Seq<char>) -> Option<AnyView> {
    let i = first_entry(contents, key, 0);
    if 0 <= i < contents.len() {
        Some(contents[i]->Entry_1)
    } else {
        None
    }
}

/// The first `n` contents without the entries for `key`.
pub open spec fn without_key(contents: Seq<ContentView>, key: Seq<char>, n: int) -> Seq<
    ContentView,
>
    decreases n,
{
    if n <= 0 {
        Seq::empty()
    } else if is_entry(contents[n - 1], key) {
        without_key(contents, key, n - 1)
    } else {
        without_key(contents, key, n - 1).push(contents[n - 1])
    }
}

/// The number of entries for `key` among the first `n` contents.
pub open spec fn count_key(contents: Seq<ContentView>, key: Seq<char>, n: int) -> nat
    decreases n,
{
    if n <= 0 {
        0
    } else if is_entry(contents[n - 1], key) {
        count_key(contents, key, n - 1) + 1
    } else {
        count_key(contents, key, n - 1)
    }
}

/// The first entry for a key is an entry for it, and none stands before it.
pub proof fn lemma_first_entry(contents: Seq<ContentView>, key: Seq<char>, from: int)
    requires
        0 <= from,
    ensures
        from <= first_entry(contents, key, from) || first_entry(contents, key, from)
            == contents.len(),
        first_entry(contents, key, from) <= contents.len(),
        first_entry(contents, key, from) < contents.len() ==> is_entry(
            contents[first_entry(contents, key, from)],
            key,
        ),
        forall|j: int|
            from <= j < first_entry(contents, key, from) ==> !is_entry(#[trigger] contents[j], key),
    decreases contents.len() - from,
{
    if from < contents.len() && !is_entry(contents[from], key) {
        lemma_first_entry(contents, key, from + 1);
    }
}

/// Taking out an entry for `key` leaves what is there without that key as
/// it was, and one entry less for the key.
pub proof fn lemma_without_remove(contents: Seq<ContentView>, key: Seq<char>, i: int, n: int)
    requires
        0 <= i < contents.len(),
        is_entry(contents[i], key),
        0 <= n <= contents.len(),
    ensures
        n <= i ==> without_key(contents.remove(i), key, n) == without_key(contents, key, n),
        n > i ==> without_key(contents.remove(i), key, n - 1) == without_key(contents, key, n),
        n <= i ==> count_key(contents.remove(i), key, n) == count_key(contents, key, n),
        n > i ==> count_key(contents.remove(i), key, n - 1) + 1 == count_key(contents, key, n),
    decreases n,
{
    let r = contents.remove(i);
    if n > 0 {
        lemma_without_remove(contents, key, i, n - 1);
        if n <= i {
            assert(r[n - 1] == contents[n - 1]);
        } else if n - 1 > i {
            assert(r[n - 2] == contents[n - 1]);
        }
    }
}

/// Without an entry for `key` nothing is left out.
pub proof fn lemma_without_none(contents: Seq<ContentView>, key: Seq<char>, n: int)
    requires
        0 <= n <= contents.len(),
        forall|j: int| 0 <= j < n ==> !is_entry(#[trigger] contents[j], key),
    ensures
        without_key(contents, key, n) == contents.subrange(0, n),
        count_key(contents, key, n) == 0,
    decreases n,
{
    if n > 0 {
        lemma_without_none(contents, key, n - 1);
        assert(contents.subrange(0, n - 1).push(contents[n - 1]) =~= contents.subrange(0, n));
    } else {
        assert(contents.subrange(0, 0) =~= Seq::<ContentView>::empty());
    }
}

/// The identities of the entries for `key` among the first `n` elements,
/// in causal order.
pub open spec fn entry_ids(els: Seq<NodeView>, key: Seq<char>, n: int) -> Seq<BlockId>
    decreases n,
{
    if n <= 0 {
        Seq::empty()
    } else if is_entry(els[n - 1].item.content, key) {
        entry_ids(els, key, n - 1).push(els[n - 1].item.id)
    } else {
        entry_ids(els, key, n - 1)
    }
}

/// There are as many identities of entries for a key as entries for it.
pub proof fn lemma_entry_ids_count(els: Seq<NodeView>, key: Seq<char>, n: int)
    requires
        0 <= n <= els.len(),
    ensures
        entry_ids(els, key, n).len() == count_key(contents_of(els), key, n),
    decreases n,
{
    if n > 0 {
        lemma_entry_ids_count(els, key, n - 1);
    }
}

/// Taking out the first entry for `key` takes its identity from the front
/// of the identities of the entries for the key.
proof fn lemma_entry_ids_remove(els: Seq<NodeView>, key: Seq<char>, i: int, n: int)
    requires
        0 <= i < els.len(),
        is_entry(els[i].item.content, key),
        forall|j: int| 0 <= j < i ==> !is_entry((#[trigger] els[j]).item.content, key),
        0 <= n <= els.len(),
    ensures
        n <= i ==> entry_ids(els, key, n).len() == 0 && entry_ids(els.remove(i), key, n).len()
            == 0,
        n > i ==> entry_ids(els, key, n) == seq![els[i].item.id] + entry_ids(
            els.remove(i),
            key,
            n - 1,
        ),
    decreases n,
{
    let r = els.remove(i);
    if n > 0 {
        lemma_entry_ids_remove(els, key, i, n - 1);
        if n <= i {
            assert(r[n - 1] == els[n - 1]);
        } else if n - 1 == i {
            assert(entry_ids(els, key, i) =~= Seq::<BlockId>::empty());
            assert(entry_ids(r, key, i) =~= Seq::<BlockId>::empty());
            assert(entry_ids(els, key, n) =~= seq![els[i].item.id] + entry_ids(r, key, n - 1));
        } else {
            assert(r[n - 2] == els[n - 1]);
            let rest = entry_ids(r, key, n - 2);
            if is_entry(els[n - 1].item.content, key) {
                assert((seq![els[i].item.id] + rest).push(els[n - 1].item.id) =~= seq![
                    els[i].item.id,
                ] + rest.push(els[n - 1].item.id));
            }
        }
    }
}

/// Every content is an element of a type of this kind.
pub open spec fn all_elems(kind: TypeKind, contents: Seq<ContentView>) -> bool {
    forall|i: int| 0 <= i < contents.len() ==> elem_of(kind, #[trigger] contents[i])
}

fn kind_matches(kind: TypeKind, c: &Content) -> (r: bool)
    ensures
        r == elem_of(kind, c@),
{
    match kind {
        TypeKind::Array => match c {
            Content::Value(_) => true,
            _ => false,
        },
        TypeKind::Mapping => match c {
            Content::Entry(_, _) => true,
            _ => false,
        },
        TypeKind::Text => match c {
            Content::Char(_) => true,
            _ => false,
        },
    }
}

fn all_match(kind: TypeKind, contents: &Vec<Content>) -> (r: bool)
    ensures
        r == all_elems(kind, contents_view(contents@)),
{
    let mut c: usize = 0;
    while c < contents.len()
        invariant
            c <= contents.len(),
            forall|j: int| 0 <= j < c ==> elem_of(kind, #[trigger] contents_view(contents@)[j]),
        decreases contents.len() - c,
    {
        if !kind_matches(kind, &contents[c]) {
            assert(!elem_of(kind, contents_view(contents@)[c as int]));
            return false;
        }
        c += 1;
    }
    true
}

/// `String::push`: appends the character.
#[verifier::external_body]
pub(crate) fn push_char(s: &mut String, c: char)
    ensures
        final(s)@ == old(s)@.push(c),
{
    s.push(c);
}

fn same_kind(a: TypeKind, b: TypeKind) -> (r: bool)
    ensures
        r == (a == b),
{
    match (a, b) {
        (TypeKind::Array, TypeKind::Array) => true,
        (TypeKind::Mapping, TypeKind::Mapping) => true,
        (TypeKind::Text, TypeKind::Text) => true,
        _ => false,
    }
}

fn speaks(p: &Item, replica: u64, from: u64) -> (r: bool)
    ensures
        r == speaks_of(p@, replica, from as nat),
{
    if p.id.replica == replica && p.id.clock >= from {
        return true;
    }
    match p.left {
        Some(l) => {
            if l.replica == replica && l.clock >= from {
                return true;
            }
        },
        None => {},
    }
    match p.right {
        Some(r) => {
            if r.replica == replica && r.clock >= from {
                return true;
            }
        },
        None => {},
    }
    false
}

impl Doc {
    /// The store is well formed.
    pub open spec fn wf(&self) -> bool {
        self.store.wf()
    }

    /// The integrated nodes in causal order.
    pub open spec fn nodes(&self) -> Seq<NodeView> {
        self.store@.nodes
    }

    /// The contents that the type shows, in causal order.
    pub open spec fn contents(&self, ty: TypeRef) -> Seq<ContentView> {
        contents_of(elements(self.nodes(), ty))
    }

    /// The clock that this replica writes next.
    pub open spec fn clock(&self) -> nat {
        next_clock(self.nodes(), self.replica)
    }

    /// The replica cannot write `n` items now.
    pub open spec fn blocked(&self, n: nat) -> bool {
        blocked_from(self.nodes(), self.store@.pending, self.replica, self.clock()) || self.clock()
            + n > u64::MAX
    }

    /// An empty document for `replica`; its waiting room takes any number
    /// of items.
    pub fn new(replica: u64) -> (r: Doc)
        ensures
            r.wf(),
            r.replica == replica,
            !r.busy,
            r.nodes().len() == 0,
            r.store@.pending.len() == 0,
            r.store@.limit == usize::MAX,
    {
        Doc { replica, store: BlockStore::new(usize::MAX), busy: false }
    }

    /// An empty document for `replica` whose waiting room takes up to
    /// `pending_limit` items.
    pub fn with_pending_limit(replica: u64, pending_limit: usize) -> (r: Doc)
        ensures
            r.wf(),
            r.replica == replica,
            !r.busy,
            r.nodes().len() == 0,
            r.store@.pending.len() == 0,
            r.store@.limit == pending_limit,
    {
        Doc { replica, store: BlockStore::new(pending_limit), busy: false }
    }

    /// The clock that this replica writes next.
    pub fn next_clock(&self) -> (r: u64)
        requires
            self.wf(),
        ensures
            r == self.clock(),
    {
        let mut bound: u64 = 0;
        let mut i: usize = 0;
        while i < self.store.nodes.len()
            invariant
                self.wf(),
                i <= self.store.nodes.len(),
                bound == clock_bound(self.nodes(), self.replica, i as int),
            decreases self.store.nodes.len() - i,
        {
            let id = self.store.nodes[i].item.id;
            proof {
                assert(node_ok(self.nodes(), i as int));
                assert(self.nodes()[i as int].item.id == id);
            }
            if id.replica == self.replica && id.clock >= bound {
                bound = id.clock + 1;
            }
            i += 1;
        }
        bound
    }

    /// Whether what the replica would write from `from` on is spoken of.
    fn is_blocked(&self, from: u64) -> (r: bool)
        ensures
            r == blocked_from(self.nodes(), self.store@.pending, self.replica, from as nat),
    {
        let mut i: usize = 0;
        while i < self.store.pending.len()
            invariant
                i <= self.store.pending.len(),
                forall|j: int|
                    0 <= j < i ==> !speaks_of(
                        #[trigger] self.store@.pending[j],
                        self.replica,
                        from as nat,
                    ),
            decreases self.store.pending.len() - i,
        {
            if speaks(&self.store.pending[i], self.replica, from) {
                assert(speaks_of(self.store@.pending[i as int], self.replica, from as nat));
                return true;
            }
            i += 1;
        }
        let mut j: usize = 0;
        while j < self.store.nodes.len()
            invariant
                j <= self.store.nodes.len(),
                forall|k: int|
                    0 <= k < self.store@.pending.len() ==> !speaks_of(
                        #[trigger] self.store@.pending[k],
                        self.replica,
                        from as nat,
                    ),
                forall|k: int|
                    0 <= k < j ==> !((#[trigger] self.nodes()[k]).item.content is Delete
                        && self.nodes()[k].item.content->Delete_0.replica == self.replica
                        && self.nodes()[k].item.content->Delete_0.clock >= from),
            decreases self.store.nodes.len() - j,
        {
            match &self.store.nodes[j].item.content {
                Content::Delete(t) => {
                    if t.replica == self.replica && t.clock >= from {
                        assert(self.nodes()[j as int].item.content is Delete);
                        return true;
                    }
                },
                _ => {},
            }
            j += 1;
        }
        false
    }

    /// The index of the head that the handle names.
    fn head_index(&self, ty: &TypeRef) -> (r: Option<usize>)
        requires
            self.wf(),
        ensures
            match r {
                Some(i) => valid_type(self.nodes(), *ty) && i == index_of(self.nodes(), ty.head),
                None => !valid_type(self.nodes(), *ty),
            },
    {
        match self.store.find(ty.head) {
            None => None,
            Some(i) => {
                proof {
                    lemma_index_of(self.nodes(), i as int);
                    assert(self.store.nodes[i as int]@ == self.nodes()[i as int]);
                }
                if self.store.nodes[i].level != 0 {
                    return None;
                }
                match &self.store.nodes[i].item.content {
                    Content::Marker(kind, _) => {
                        if same_kind(*kind, ty.kind) {
                            Some(i)
                        } else {
                            None
                        }
                    },
                    _ => None,
                }
            },
        }
    }

    /// The indices of the elements that the type under the head at `mi`
    /// shows, in causal order.
    fn collect(&self, mi: usize, ty: &TypeRef) -> (r: Vec<usize>)
        requires
            self.wf(),
            valid_type(self.nodes(), *ty),
            mi == index_of(self.nodes(), ty.head),
        ensures
            r.len() == elements(self.nodes(), *ty).len(),
            forall|k: int|
                0 <= k < r.len() ==> mi < #[trigger] r[k] < self.nodes().len()
                    && self.nodes()[r[k] as int] == elements(self.nodes(), *ty)[k] && visible_to(
                    self.nodes(),
                    head_key(self.nodes(), *ty),
                    ty.kind,
                    r[k] as int,
                ).len() == k && shows(
                    self.nodes()[r[k] as int],
                    head_key(self.nodes(), *ty),
                    ty.kind,
                ),
    {
        let ghost nodes = self.nodes();
        let ghost hk = head_key(nodes, *ty);
        let mut out: Vec<usize> = Vec::new();
        assert(is_head(nodes, mi as int, ty.kind));
        assert(nodes.len() == self.store.nodes.len());
        proof {
            assert forall|k: int| 0 <= k < mi + 1 implies !shows(#[trigger] nodes[k], hk, ty.kind) by {
                lemma_block_outside(nodes, mi as int, 0, k);
            }
            lemma_visible_skip(nodes, hk, ty.kind, 0, mi + 1);
        }
        let mut j: usize = mi + 1;
        while j < self.store.nodes.len() && self.store.nodes[j].level > 0
            invariant
                self.wf(),
                nodes == self.nodes(),
                hk == head_key(nodes, *ty),
                valid_type(nodes, *ty),
                mi == index_of(nodes, ty.head),
                mi < j <= nodes.len(),
                forall|k: int| mi < k < j ==> (#[trigger] nodes[k]).path.len() > 1,
                out.len() == visible_to(nodes, hk, ty.kind, j as int).len(),
                forall|k: int|
                    0 <= k < out.len() ==> mi < #[trigger] out[k] < j && nodes[out[k] as int]
                        == visible_to(nodes, hk, ty.kind, j as int)[k] && visible_to(
                        nodes,
                        hk,
                        ty.kind,
                        out[k] as int,
                    ).len() == k && shows(nodes[out[k] as int], hk, ty.kind),
            decreases self.store.nodes.len() - j,
        {
            let node = &self.store.nodes[j];
            proof {
                assert(node@ == nodes[j as int]);
                lemma_block_inside(nodes, mi as int, j as int);
            }
            if !node.deleted && kind_matches(ty.kind, &node.item.content) {
                out.push(j);
            }
            j += 1;
        }
        proof {
            assert forall|k: int| j <= k < nodes.len() implies !shows(
                #[trigger] nodes[k],
                hk,
                ty.kind,
            ) by {
                assert(self.store.nodes[j as int]@ == nodes[j as int]);
                lemma_block_outside(nodes, mi as int, j as int, k);
            }
            lemma_visible_skip(nodes, hk, ty.kind, j as int, nodes.len() as int);
        }
        out
    }

    /// Writes an item with the given origins and content as this replica's
    /// next; gives a copy of it.
    fn put(&mut self, left: Option<BlockId>, right: Option<BlockId>, content: &Content) -> (item:
        Item)
        requires
            old(self).wf(),
            !old(self).blocked(1),
            left is Some ==> has_id(old(self).nodes(), left->Some_0),
            right is Some ==> has_id(old(self).nodes(), right->Some_0),
            content@ is Delete ==> has_id(old(self).nodes(), content@->Delete_0),
        ensures
            final(self).wf(),
            final(self).replica == old(self).replica,
            final(self).busy == old(self).busy,
            final(self).store@.pending == old(self).store@.pending,
            final(self).store@.limit == old(self).store@.limit,
            item@ == (ItemView {
                id: BlockId { replica: old(self).replica, clock: old(self).clock() as u64 },
                left,
                right,
                content: content@,
            }),
            ready(old(self).nodes(), item@),
            !node_for(old(self).nodes(), item@).deleted,
            final(self).nodes() == integrate_spec(old(self).nodes(), item@),
            final(self).clock() == old(self).clock() + 1,
            forall|n: nat| !old(self).blocked(n + 1) ==> !final(self).blocked(n),
    {
        let clock = self.next_clock();
        let item = Item {
            id: BlockId { replica: self.replica, clock },
            left,
            right,
            content: content.cloned(),
        };
        let copy = item.cloned();
        proof {
            lemma_local_ready(self.nodes(), self.store@.pending, item@);
            lemma_insert(self.store@, item@);
            lemma_drain_settled(integrate_spec(self.nodes(), item@), self.store@.pending);
            if content@ is Delete {
                let t = content@->Delete_0;
                let pos = lemma_slot(self.nodes(), item@);
                lemma_clock_bound(self.nodes(), self.replica, self.nodes().len() as int);
                let ti = index_of(self.nodes(), t);
                assert(self.nodes()[ti].item.id == t);
                crate::shared::lemma_blocked_after_delete(
                    self.nodes(),
                    self.store@.pending,
                    item@,
                    pos,
                );
            }
        }
        let _ = self.store.insert(item);
        copy
    }

    /// Whether the replica cannot write `n` items now.
    fn is_blocked_for(&self, n: usize) -> (r: bool)
        requires
            self.wf(),
        ensures
            r == self.blocked(n as nat),
    {
        let clock = self.next_clock();
        if self.is_blocked(clock) {
            return true;
        }
        n as u64 > u64::MAX - clock
    }

    /// The first shared type of this kind and name in causal order.
    pub fn find_type(&self, kind: TypeKind, name: &String) -> (r: Option<TypeRef>)
        requires
            self.wf(),
        ensures
            match r {
                Some(ty) => valid_type(self.nodes(), ty) && ty.kind == kind && self.nodes()[index_of(
                    self.nodes(),
                    ty.head,
                )].item.content == ContentView::Marker(kind, name@) && forall|j: int|
                    0 <= j < index_of(self.nodes(), ty.head) ==> !(is_head(self.nodes(), j, kind)
                        && (#[trigger] self.nodes()[j]).item.content == ContentView::Marker(
                        kind,
                        name@,
                    )),
                None => forall|j: int|
                    0 <= j < self.nodes().len() ==> !(is_head(self.nodes(), j, kind)
                        && (#[trigger] self.nodes()[j]).item.content == ContentView::Marker(
                        kind,
                        name@,
                    )),
            },
    {
        let mut i: usize = 0;
        while i < self.store.nodes.len()
            invariant
                self.wf(),
                i <= self.store.nodes.len(),
                forall|j: int|
                    0 <= j < i ==> !(is_head(self.nodes(), j, kind)
                        && (#[trigger] self.nodes()[j]).item.content == ContentView::Marker(
                        kind,
                        name@,
                    )),
            decreases self.store.nodes.len() - i,
        {
            let node = &self.store.nodes[i];
            proof {
                assert(node@ == self.nodes()[i as int]);
            }
            if node.level == 0 {
                match &node.item.content {
                    Content::Marker(k, n) => {
                        if same_kind(*k, kind) && *n == *name {
                            proof {
                                lemma_index_of(self.nodes(), i as int);
                            }
                            return Some(TypeRef { head: node.item.id, kind });
                        }
                    },
                    _ => {},
                }
            }
            i += 1;
        }
        None
    }

    /// Writes the head of a new shared type; gives the handle on it and a
    /// copy of the item written.
    pub fn create_type(&mut self, kind: TypeKind, name: &String) -> (r: Result<
        (TypeRef, Item),
        DocError,
    >)
        requires
            old(self).wf(),
        ensures
            final(self).wf(),
            final(self).replica == old(self).replica,
            final(self).busy == old(self).busy,
            final(self).store@.pending == old(self).store@.pending,
            final(self).store@.limit == old(self).store@.limit,
            extends(old(self).nodes(), final(self).nodes()),
            others_kept(old(self).nodes(), final(self).nodes(), None),
            match r {
                Ok((ty, item)) => {
                    &&& !old(self).blocked(1)
                    &&& item@ == local_head(old(self).nodes(), old(self).replica, kind, name@)
                    &&& ty == (TypeRef { head: item@.id, kind })
                    &&& final(self).nodes() == integrate_spec(old(self).nodes(), item@)
                    &&& ready(old(self).nodes(), item@)
                    &&& valid_type(final(self).nodes(), ty)
                    &&& final(self).nodes()[index_of(final(self).nodes(), ty.head)].item == item@
                    &&& final(self).contents(ty).len() == 0
                },
                Err(e) => e == DocError::Blocked && old(self).blocked(1) && final(self).nodes()
                    == old(self).nodes(),
            },
    {
        if self.is_blocked_for(1) {
            proof {
                lemma_extends_refl(self.nodes());
                lemma_others_refl(self.nodes(), None);
            }
            return Err(DocError::Blocked);
        }
        let content = Content::Marker(kind, name.clone());
        let ghost before = self.nodes();
        let item = self.put(None, None, &content);
        proof {
            lemma_integrate(before, item@);
            lemma_local_head(before, item@);
            lemma_head_frame(before, item@);
        }
        Ok((TypeRef { head: item.id, kind }, item))
    }

    /// Writes the contents as new elements of the type, the first at
    /// `index`, the others behind it; gives copies of the items written.
    #[verifier::rlimit(60)]
    pub fn insert_run(&mut self, ty: &TypeRef, index: usize, contents: &Vec<Content>) -> (r: Result<
        Vec<Item>,
        DocError,
    >)
        requires
            old(self).wf(),
        ensures
            final(self).wf(),
            final(self).replica == old(self).replica,
            final(self).busy == old(self).busy,
            final(self).store@.pending == old(self).store@.pending,
            final(self).store@.limit == old(self).store@.limit,
            extends(old(self).nodes(), final(self).nodes()),
            others_kept(old(self).nodes(), final(self).nodes(), Some(ty.head)),
            match r {
                Ok(items) => {
                    &&& valid_type(old(self).nodes(), *ty)
                    &&& all_elems(ty.kind, contents_view(contents@))
                    &&& index <= old(self).contents(*ty).len()
                    &&& !old(self).blocked(contents.len() as nat)
                    &&& valid_type(final(self).nodes(), *ty)
                    &&& final(self).contents(*ty) == old(self).contents(*ty).subrange(
                        0,
                        index as int,
                    ) + contents_view(contents@) + old(self).contents(*ty).subrange(
                        index as int,
                        old(self).contents(*ty).len() as int,
                    )
                    &&& final(self).nodes() == integrate_all(old(self).nodes(), items_view(items@))
                    &&& steady(old(self).nodes(), items_view(items@))
                    &&& items_view(items@) == written(
                        old(self).nodes(),
                        old(self).replica,
                        *ty,
                        index as int,
                        contents_view(contents@),
                    )
                },
                Err(e) => {
                    &&& final(self).nodes() == old(self).nodes()
                    &&& e == insert_error(*old(self), *ty, index as nat, contents_view(contents@))
                        ->Some_0
                    &&& insert_error(*old(self), *ty, index as nat, contents_view(contents@))
                        is Some
                },
            },
    {
        proof {
            lemma_extends_refl(self.nodes());
            lemma_others_refl(self.nodes(), Some(ty.head));
        }
        let mi = match self.head_index(ty) {
            Some(mi) => mi,
            None => {
                return Err(DocError::UnknownType);
            },
        };
        if !all_match(ty.kind, contents) {
            return Err(DocError::KindMismatch);
        }
        let idxs = self.collect(mi, ty);
        if index > idxs.len() {
            return Err(DocError::OutOfBounds);
        }
        if self.is_blocked_for(contents.len()) {
            return Err(DocError::Blocked);
        }
        let ghost start = self.nodes();
        let ghost hk = head_key(start, *ty);
        let ghost old_els = elements(start, *ty);
        let ghost mut fresh: Seq<NodeView> = Seq::empty();
        let ghost c0 = self.clock();
        let ghost cv = contents_view(contents@);
        let ghost all = written(start, self.replica, *ty, index as int, cv);
        let mut l: usize = if index == 0 {
            mi
        } else {
            idxs[index - 1]
        };
        let ghost l0 = l as int;
        proof {
            if index > 0 {
                lemma_index_of(start, l as int);
            }
            assert(l0 == left_index(start, *ty, index as int));
            assert(is_head(start, mi as int, ty.kind));
            assert(node_ok(start, mi as int));
            if index == 0 {
                assert forall|k: int| 0 <= k < mi + 1 implies !shows(
                    #[trigger] start[k],
                    hk,
                    ty.kind,
                ) by {
                    lemma_block_outside(start, mi as int, 0, k);
                }
                lemma_visible_skip(start, hk, ty.kind, 0, mi + 1);
            } else {
                assert(shows(start[l as int], hk, ty.kind));
            }
            assert(old_els =~= old_els.subrange(0, index as int) + fresh + old_els.subrange(
                index as int,
                old_els.len() as int,
            ));
            assert(contents_of(fresh) =~= contents_view(contents@).subrange(0, 0));
        }
        let mut items: Vec<Item> = Vec::new();
        proof {
            lemma_steady_none(self.nodes());
            assert(items_view(items@) =~= Seq::<ItemView>::empty());
        }
        let mut k: usize = 0;
        while k < contents.len()
            invariant
                self.wf(),
                self.replica == old(self).replica,
                self.busy == old(self).busy,
                self.store@.pending == old(self).store@.pending,
                self.store@.limit == old(self).store@.limit,
                start == old(self).nodes(),
                hk == head_key(start, *ty),
                old_els == elements(start, *ty),
                index <= old_els.len(),
                k <= contents.len(),
                items.len() == k,
                fresh.len() == k,
                valid_type(self.nodes(), *ty),
                head_key(self.nodes(), *ty) == hk,
                l < self.nodes().len(),
                self.nodes()[l as int].path.len() >= 1,
                self.nodes()[l as int].path[0] == hk,
                visible_to(self.nodes(), hk, ty.kind, l + 1).len() == index + k,
                elements(self.nodes(), *ty) == old_els.subrange(0, index as int) + fresh
                    + old_els.subrange(index as int, old_els.len() as int),
                contents_of(fresh) == contents_view(contents@).subrange(0, k as int),
                self.nodes() == integrate_all(start, items_view(items@)),
                steady(start, items_view(items@)),
                cv == contents_view(contents@),
                all == written(start, self.replica, *ty, index as int, cv),
                l0 == left_index(start, *ty, index as int),
                c0 == next_clock(start, self.replica),
                self.clock() == c0 + k,
                c0 + contents.len() <= u64::MAX,
                items_view(items@) == all.subrange(0, k as int),
                right_of(self.nodes(), l as int) == right_of(start, l0),
                k == 0 ==> l == l0 && self.nodes() == start,
                k > 0 ==> self.nodes()[l as int].item.id == (BlockId {
                    replica: self.replica,
                    clock: (c0 + k - 1) as u64,
                }),
                !self.blocked((contents.len() - k) as nat),
                extends(start, self.nodes()),
                others_kept(start, self.nodes(), Some(ty.head)),
                all_elems(ty.kind, contents_view(contents@)),
            decreases contents.len() - k,
        {
            let ghost prev = self.nodes();
            let ghost prev_items = items_view(items@);
            assert(prev.len() == self.store.nodes.len());
            let left = Some(self.store.nodes[l].item.id);
            let right = if l + 1 < self.store.nodes.len() && self.store.nodes[l + 1].level > 0 {
                Some(self.store.nodes[l + 1].item.id)
            } else {
                None
            };
            proof {
                assert(self.store.nodes[l as int]@ == prev[l as int]);
                lemma_index_of(prev, l as int);
                if l + 1 < prev.len() {
                    assert(self.store.nodes[l + 1]@ == prev[l + 1]);
                    lemma_index_of(prev, l + 1);
                }
                assert(right == right_of(prev, l as int));
                assert(elem_of(ty.kind, contents_view(contents@)[k as int]));
                assert(!self.blocked(1));
            }
            let item = self.put(left, right, &contents[k]);
            proof {
                let n = node_for(prev, item@);
                lemma_local_insert(prev, *ty, l as int, item@);
                lemma_insert_frame(prev, *ty, l as int, item@);
                lemma_others_trans(start, prev, self.nodes(), Some(ty.head));
                lemma_integrate(prev, item@);
                lemma_extends_trans(start, prev, self.nodes());
                let a = old_els.subrange(0, index as int);
                let b = old_els.subrange(index as int, old_els.len() as int);
                assert((a + fresh + b).insert(index + k, n) =~= a + fresh.push(n) + b);
                assert(contents_of(fresh.push(n)) =~= contents_view(contents@).subrange(
                    0,
                    k + 1,
                ));
                fresh = fresh.push(n);
                assert(items_view(items@.push(item)).drop_last() =~= prev_items);
                lemma_steady_push(start, prev_items, item@);
                assert(items_view(items@.push(item)) =~= prev_items.push(item@));
                assert(items_view(items@.push(item)).last() == item@);
                assert(item@ == all[k as int]);
                assert(items_view(items@.push(item)) =~= all.subrange(0, k + 1));
                assert(self.nodes()[l + 1] == n);
            }
            items.push(item);
            l = l + 1;
            k += 1;
        }
        proof {
            assert(contents_view(contents@).subrange(0, k as int) =~= contents_view(contents@));
            assert(all.subrange(0, k as int) =~= all);
            let a = old_els.subrange(0, index as int);
            let b = old_els.subrange(index as int, old_els.len() as int);
            let oc = contents_of(old_els);
            assert(contents_of(a + fresh + b) =~= oc.subrange(0, index as int) + contents_of(fresh)
                + oc.subrange(index as int, oc.len() as int));
        }
        Ok(items)
    }

    /// Writes a tombstone for the element that the type shows at `index`;
    /// gives a copy of the item written.
    fn delete_at(&mut self, ty: &TypeRef, index: usize) -> (item: Item)
        requires
            old(self).wf(),
            valid_type(old(self).nodes(), *ty),
            index < old(self).contents(*ty).len(),
            !old(self).blocked(1),
        ensures
            final(self).wf(),
            final(self).replica == old(self).replica,
            final(self).busy == old(self).busy,
            final(self).store@.pending == old(self).store@.pending,
            final(self).store@.limit == old(self).store@.limit,
            extends(old(self).nodes(), final(self).nodes()),
            others_kept(old(self).nodes(), final(self).nodes(), Some(ty.head)),
            valid_type(final(self).nodes(), *ty),
            elements(final(self).nodes(), *ty) == elements(old(self).nodes(), *ty).remove(
                index as int,
            ),
            final(self).contents(*ty) == old(self).contents(*ty).remove(index as int),
            final(self).nodes() == integrate_spec(old(self).nodes(), item@),
            ready(old(self).nodes(), item@),
            item@ == local_delete(
                old(self).nodes(),
                old(self).replica,
                elements(old(self).nodes(), *ty)[index as int].item.id,
            ),
            final(self).clock() == old(self).clock() + 1,
            forall|n: nat| !old(self).blocked(n + 1) ==> !final(self).blocked(n),
    {
        let ghost prev = self.nodes();
        let mi = match self.head_index(ty) {
            Some(mi) => mi,
            None => 0,
        };
        let idxs = self.collect(mi, ty);
        let ti = idxs[index];
        assert(self.store.nodes[ti as int]@ == prev[ti as int]);
        let target = self.store.nodes[ti].item.id;
        proof {
            lemma_index_of(prev, ti as int);
        }
        let content = Content::Delete(target);
        let item = self.put(None, None, &content);
        proof {
            lemma_local_delete(prev, *ty, ti as int, item@);
            lemma_delete_frame(prev, *ty, ti as int, item@);
            lemma_integrate(prev, item@);
            assert(contents_of(elements(prev, *ty).remove(index as int)) =~= contents_of(
                elements(prev, *ty),
            ).remove(index as int));
        }
        item
    }

    /// Writes tombstones for the `count` elements that the type shows from
    /// `index` on; gives copies of the items written.
    pub fn delete_run(&mut self, ty: &TypeRef, index: usize, count: usize) -> (r: Result<
        Vec<Item>,
        DocError,
    >)
        requires
            old(self).wf(),
        ensures
            final(self).wf(),
            final(self).replica == old(self).replica,
            final(self).busy == old(self).busy,
            final(self).store@.pending == old(self).store@.pending,
            final(self).store@.limit == old(self).store@.limit,
            extends(old(self).nodes(), final(self).nodes()),
            others_kept(old(self).nodes(), final(self).nodes(), Some(ty.head)),
            match r {
                Ok(items) => {
                    &&& delete_error(*old(self), *ty, index as nat, count as nat) is None
                    &&& valid_type(final(self).nodes(), *ty)
                    &&& final(self).contents(*ty) == old(self).contents(*ty).subrange(
                        0,
                        index as int,
                    ) + old(self).contents(*ty).subrange(
                        index + count,
                        old(self).contents(*ty).len() as int,
                    )
                    &&& final(self).nodes() == integrate_all(old(self).nodes(), items_view(items@))
                    &&& steady(old(self).nodes(), items_view(items@))
                    &&& items_view(items@) == tombstones(
                        old(self).nodes(),
                        old(self).replica,
                        ids_of(elements(old(self).nodes(), *ty)).subrange(
                            index as int,
                            index + count,
                        ),
                    )
                },
                Err(e) => {
                    &&& final(self).nodes() == old(self).nodes()
                    &&& delete_error(*old(self), *ty, index as nat, count as nat) == Some(e)
                },
            },
    {
        proof {
            lemma_extends_refl(self.nodes());
            lemma_others_refl(self.nodes(), Some(ty.head));
        }
        let mi = match self.head_index(ty) {
            Some(mi) => mi,
            None => {
                return Err(DocError::UnknownType);
            },
        };
        let idxs = self.collect(mi, ty);
        if index > idxs.len() || count > idxs.len() - index {
            return Err(DocError::OutOfBounds);
        }
        if self.is_blocked_for(count) {
            return Err(DocError::Blocked);
        }
        let ghost start = self.nodes();
        let ghost oe = elements(start, *ty);
        let ghost c0 = self.clock();
        let ghost all = tombstones(
            start,
            self.replica,
            ids_of(oe).subrange(index as int, index + count),
        );
        let mut items: Vec<Item> = Vec::new();
        proof {
            lemma_steady_none(self.nodes());
            assert(items_view(items@) =~= Seq::<ItemView>::empty());
        }
        let mut k: usize = 0;
        proof {
            assert(oe =~= oe.subrange(0, index as int) + oe.subrange(index + 0, oe.len() as int));
            assert(items_view(items@) =~= all.subrange(0, 0));
        }
        while k < count
            invariant
                self.wf(),
                self.replica == old(self).replica,
                self.busy == old(self).busy,
                self.store@.pending == old(self).store@.pending,
                self.store@.limit == old(self).store@.limit,
                start == old(self).nodes(),
                oe == elements(start, *ty),
                index + count <= oe.len(),
                k <= count,
                items.len() == k,
                valid_type(self.nodes(), *ty),
                elements(self.nodes(), *ty) == oe.subrange(0, index as int) + oe.subrange(
                    index + k,
                    oe.len() as int,
                ),
                self.nodes() == integrate_all(start, items_view(items@)),
                steady(start, items_view(items@)),
                c0 == next_clock(start, self.replica),
                self.clock() == c0 + k,
                all == tombstones(
                    start,
                    self.replica,
                    ids_of(oe).subrange(index as int, index + count),
                ),
                items_view(items@) == all.subrange(0, k as int),
                !self.blocked((count - k) as nat),
                extends(start, self.nodes()),
                others_kept(start, self.nodes(), Some(ty.head)),
            decreases count - k,
        {
            let ghost prev = self.nodes();
            let ghost prev_items = items_view(items@);
            let ghost pe = elements(prev, *ty);
            assert(pe[index as int] == oe[index + k]);
            let item = self.delete_at(ty, index);
            proof {
                lemma_others_trans(start, prev, self.nodes(), Some(ty.head));
                lemma_extends_trans(start, prev, self.nodes());
                assert(pe.remove(index as int) =~= oe.subrange(0, index as int) + oe.subrange(
                    index + k + 1,
                    oe.len() as int,
                ));
                assert(items_view(items@.push(item)).drop_last() =~= prev_items);
                lemma_steady_push(start, prev_items, item@);
                assert(items_view(items@.push(item)) =~= prev_items.push(item@));
                assert(items_view(items@.push(item)).last() == item@);
                assert(item@ == all[k as int]);
                assert(items_view(items@.push(item)) =~= all.subrange(0, k + 1));
            }
            items.push(item);
            k += 1;
        }
        proof {
            assert(all.subrange(0, k as int) =~= all);
            let oc = contents_of(oe);
            let a = oe.subrange(0, index as int);
            let b = oe.subrange(index + count, oe.len() as int);
            assert(contents_of(a + b) =~= oc.subrange(0, index as int) + oc.subrange(
                index + count,
                oc.len() as int,
            ));
        }
        Ok(items)
    }

    /// The number of elements that the type shows.
    pub fn len(&self, ty: &TypeRef) -> (r: Result<usize, DocError>)
        requires
            self.wf(),
        ensures
            match r {
                Ok(n) => valid_type(self.nodes(), *ty) && n == self.contents(*ty).len(),
                Err(e) => e == DocError::UnknownType && !valid_type(self.nodes(), *ty),
            },
    {
        match self.head_index(ty) {
            None => Err(DocError::UnknownType),
            Some(mi) => {
                let idxs = self.collect(mi, ty);
                Ok(idxs.len())
            },
        }
    }

    /// The characters that a text shows, in causal order.
    pub fn text(&self, ty: &TypeRef) -> (r: Result<String, DocError>)
        requires
            self.wf(),
        ensures
            match r {
                Ok(s) => valid_type(self.nodes(), *ty) && ty.kind == TypeKind::Text && s@
                    == chars_of(self.contents(*ty)),
                Err(e) => if valid_type(self.nodes(), *ty) {
                    e == DocError::KindMismatch && ty.kind != TypeKind::Text
                } else {
                    e == DocError::UnknownType
                },
            },
    {
        let mi = match self.head_index(ty) {
            None => {
                return Err(DocError::UnknownType);
            },
            Some(mi) => mi,
        };
        if !same_kind(ty.kind, TypeKind::Text) {
            return Err(DocError::KindMismatch);
        }
        let idxs = self.collect(mi, ty);
        let ghost contents = self.contents(*ty);
        let mut out = String::new();
        let mut k: usize = 0;
        assert(out@ =~= chars_of(contents).subrange(0, 0));
        while k < idxs.len()
            invariant
                self.wf(),
                contents == self.contents(*ty),
                ty.kind == TypeKind::Text,
                k <= idxs.len(),
                idxs.len() == contents.len(),
                forall|j: int|
                    0 <= j < idxs.len() ==> #[trigger] idxs[j] < self.nodes().len()
                        && self.nodes()[idxs[j] as int] == elements(self.nodes(), *ty)[j] && shows(
                        self.nodes()[idxs[j] as int],
                        head_key(self.nodes(), *ty),
                        ty.kind,
                    ),
                out@ == chars_of(contents).subrange(0, k as int),
            decreases idxs.len() - k,
        {
            let i = idxs[k];
            assert(self.store.nodes[i as int]@ == self.nodes()[i as int]);
            match &self.store.nodes[i].item.content {
                Content::Char(c) => {
                    push_char(&mut out, *c);
                },
                _ => {},
            }
            k += 1;
            assert(out@ =~= chars_of(contents).subrange(0, k as int));
        }
        assert(chars_of(contents).subrange(0, k as int) =~= chars_of(contents));
        Ok(out)
    }

    /// The values that an array shows, in causal order.
    pub fn values(&self, ty: &TypeRef) -> (r: Result<Vec<Any>, DocError>)
        requires
            self.wf(),
        ensures
            match r {
                Ok(v) => valid_type(self.nodes(), *ty) && ty.kind == TypeKind::Array
                    && crate::any::items_view(v@) == values_of(self.contents(*ty)),
                Err(e) => if valid_type(self.nodes(), *ty) {
                    e == DocError::KindMismatch && ty.kind != TypeKind::Array
                } else {
                    e == DocError::UnknownType
                },
            },
    {
        let mi = match self.head_index(ty) {
            None => {
                return Err(DocError::UnknownType);
            },
            Some(mi) => mi,
        };
        if !same_kind(ty.kind, TypeKind::Array) {
            return Err(DocError::KindMismatch);
        }
        let idxs = self.collect(mi, ty);
        let ghost contents = self.contents(*ty);
        let mut out: Vec<Any> = Vec::new();
        let mut k: usize = 0;
        assert(crate::any::items_view(out@) =~= values_of(contents).subrange(0, 0));
        while k < idxs.len()
            invariant
                self.wf(),
                contents == self.contents(*ty),
                ty.kind == TypeKind::Array,
                k <= idxs.len(),
                idxs.len() == contents.len(),
                forall|j: int|
                    0 <= j < idxs.len() ==> #[trigger] idxs[j] < self.nodes().len()
                        && self.nodes()[idxs[j] as int] == elements(self.nodes(), *ty)[j] && shows(
                        self.nodes()[idxs[j] as int],
                        head_key(self.nodes(), *ty),
                        ty.kind,
                    ),
                crate::any::items_view(out@) == values_of(contents).subrange(0, k as int),
            decreases idxs.len() - k,
        {
            let i = idxs[k];
            assert(self.store.nodes[i as int]@ == self.nodes()[i as int]);
            let ghost before = crate::any::items_view(out@);
            match &self.store.nodes[i].item.content {
                Content::Value(v) => {
                    let copy = v.cloned();
                    out.push(copy);
                    assert(crate::any::items_view(out@) =~= before.push(v@));
                },
                _ => {},
            }
            k += 1;
            assert(crate::any::items_view(out@) =~= values_of(contents).subrange(0, k as int));
        }
        assert(values_of(contents).subrange(0, k as int) =~= values_of(contents));
        Ok(out)
    }

    /// The index among the elements of the first entry for `key`.
    fn entry_index(&self, mi: usize, ty: &TypeRef, key: &String) -> (r: Option<usize>)
        requires
            self.wf(),
            valid_type(self.nodes(), *ty),
            mi == index_of(self.nodes(), ty.head),
        ensures
            match r {
                Some(i) => i < self.contents(*ty).len() && i == first_entry(
                    self.contents(*ty),
                    key@,
                    0,
                ) && self.contents(*ty)[i as int] is Entry,
                None => first_entry(self.contents(*ty), key@, 0) == self.contents(*ty).len(),
            },
    {
        let idxs = self.collect(mi, ty);
        let ghost contents = self.contents(*ty);
        let mut k: usize = 0;
        while k < idxs.len()
            invariant
                self.wf(),
                contents == self.contents(*ty),
                k <= idxs.len(),
                idxs.len() == contents.len(),
                forall|j: int|
                    0 <= j < idxs.len() ==> #[trigger] idxs[j] < self.nodes().len()
                        && self.nodes()[idxs[j] as int] == elements(self.nodes(), *ty)[j],
                first_entry(contents, key@, 0) == first_entry(contents, key@, k as int),
            decreases idxs.len() - k,
        {
            let i = idxs[k];
            assert(self.store.nodes[i as int]@ == self.nodes()[i as int]);
            assert(contents[k as int] == self.nodes()[i as int].item.content);
            match &self.store.nodes[i].item.content {
                Content::Entry(name, _) => {
                    if *name == *key {
                        return Some(k);
                    }
                },
                _ => {},
            }
            k += 1;
        }
        None
    }

    /// The value of `key` in a mapping: that of its first entry in causal
    /// order that shows.
    pub fn map_get(&self, ty: &TypeRef, key: &String) -> (r: Result<Option<Any>, DocError>)
        requires
            self.wf(),
        ensures
            match r {
                Ok(v) => valid_type(self.nodes(), *ty) && match v {
                    Some(a) => lookup(self.contents(*ty), key@) == Some(a@),
                    None => lookup(self.contents(*ty), key@) is None,
                },
                Err(e) => e == DocError::UnknownType && !valid_type(self.nodes(), *ty),
            },
    {
        let mi = match self.head_index(ty) {
            None => {
                return Err(DocError::UnknownType);
            },
            Some(mi) => mi,
        };
        match self.entry_index(mi, ty, key) {
            None => Ok(None),
            Some(k) => {
                let idxs = self.collect(mi, ty);
                let i = idxs[k];
                assert(self.store.nodes[i as int]@ == self.nodes()[i as int]);
                assert(self.contents(*ty)[k as int] == self.nodes()[i as int].item.content);
                match &self.store.nodes[i].item.content {
                    Content::Entry(_, v) => Ok(Some(v.cloned())),
                    _ => Ok(None),
                }
            },
        }
    }

    /// Writes tombstones for every entry for `key` that the mapping shows;
    /// gives copies of the items written.
    pub fn map_delete(&mut self, ty: &TypeRef, key: &String) -> (r: Result<Vec<Item>, DocError>)
        requires
            old(self).wf(),
        ensures
            final(self).wf(),
            final(self).replica == old(self).replica,
            final(self).busy == old(self).busy,
            final(self).store@.pending == old(self).store@.pending,
            final(self).store@.limit == old(self).store@.limit,
            extends(old(self).nodes(), final(self).nodes()),
            others_kept(old(self).nodes(), final(self).nodes(), Some(ty.head)),
            match r {
                Ok(items) => {
                    &&& valid_type(old(self).nodes(), *ty)
                    &&& !old(self).blocked(
                        count_key(
                            old(self).contents(*ty),
                            key@,
                            old(self).contents(*ty).len() as int,
                        ),
                    )
                    &&& valid_type(final(self).nodes(), *ty)
                    &&& final(self).contents(*ty) == without_key(
                        old(self).contents(*ty),
                        key@,
                        old(self).contents(*ty).len() as int,
                    )
                    &&& lookup(final(self).contents(*ty), key@) is None
                    &&& final(self).nodes() == integrate_all(old(self).nodes(), items_view(items@))
                    &&& steady(old(self).nodes(), items_view(items@))
                    &&& items_view(items@) == tombstones(
                        old(self).nodes(),
                        old(self).replica,
                        entry_ids(
                            elements(old(self).nodes(), *ty),
                            key@,
                            elements(old(self).nodes(), *ty).len() as int,
                        ),
                    )
                },
                Err(e) => {
                    &&& final(self).nodes() == old(self).nodes()
                    &&& if valid_type(old(self).nodes(), *ty) {
                        e == DocError::Blocked && old(self).blocked(
                            count_key(
                                old(self).contents(*ty),
                                key@,
                                old(self).contents(*ty).len() as int,
                            ),
                        )
                    } else {
                        e == DocError::UnknownType
                    }
                },
            },
    {
        proof {
            lemma_extends_refl(self.nodes());
            lemma_others_refl(self.nodes(), Some(ty.head));
        }
        let mi = match self.head_index(ty) {
            Some(mi) => mi,
            None => {
                return Err(DocError::UnknownType);
            },
        };
        let total = self.count_entries(mi, ty, key);
        if self.is_blocked_for(total) {
            return Err(DocError::Blocked);
        }
        let ghost start = self.nodes();
        let ghost oc = self.contents(*ty);
        let ghost oe = elements(start, *ty);
        let ghost targets = entry_ids(oe, key@, oe.len() as int);
        let ghost all = tombstones(start, self.replica, targets);
        let ghost c0 = self.clock();
        let mut items: Vec<Item> = Vec::new();
        proof {
            lemma_steady_none(self.nodes());
            assert(items_view(items@) =~= Seq::<ItemView>::empty());
        }
        let mut left: usize = total;
        let mut more: bool = true;
        proof {
            lemma_entry_ids_count(oe, key@, oe.len() as int);
            assert(targets.subrange(0, targets.len() as int) =~= targets);
            assert(items_view(items@) =~= all.subrange(0, 0));
        }
        while more
            invariant
                self.wf(),
                self.replica == old(self).replica,
                self.busy == old(self).busy,
                self.store@.pending == old(self).store@.pending,
                self.store@.limit == old(self).store@.limit,
                start == old(self).nodes(),
                oc == old(self).contents(*ty),
                oe == elements(start, *ty),
                targets == entry_ids(oe, key@, oe.len() as int),
                all == tombstones(start, self.replica, targets),
                valid_type(self.nodes(), *ty),
                without_key(self.contents(*ty), key@, self.contents(*ty).len() as int)
                    == without_key(oc, key@, oc.len() as int),
                left == count_key(self.contents(*ty), key@, self.contents(*ty).len() as int),
                items.len() + left == targets.len(),
                entry_ids(
                    elements(self.nodes(), *ty),
                    key@,
                    elements(self.nodes(), *ty).len() as int,
                ) == targets.subrange(items.len() as int, targets.len() as int),
                items_view(items@) == all.subrange(0, items.len() as int),
                c0 == next_clock(start, self.replica),
                self.clock() == c0 + items.len(),
                !more ==> first_entry(self.contents(*ty), key@, 0) == self.contents(*ty).len(),
                self.nodes() == integrate_all(start, items_view(items@)),
                steady(start, items_view(items@)),
                !self.blocked(left as nat),
                extends(start, self.nodes()),
                others_kept(start, self.nodes(), Some(ty.head)),
            decreases left + (if more { 1int } else { 0int }),
        {
            let ghost prev = self.nodes();
            let ghost prev_items = items_view(items@);
            let ghost pc = self.contents(*ty);
            let ghost pe = elements(prev, *ty);
            let mi = match self.head_index(ty) {
                Some(mi) => mi,
                None => 0,
            };
            match self.entry_index(mi, ty, key) {
                None => {
                    more = false;
                },
                Some(i) => {
                    proof {
                        lemma_first_entry(pc, key@, 0);
                        lemma_without_remove(pc, key@, i as int, pc.len() as int);
                        assert(is_entry(pe[i as int].item.content, key@)) by {
                            assert(pc[i as int] == pe[i as int].item.content);
                        }
                        assert forall|j: int| 0 <= j < i implies !is_entry(
                            (#[trigger] pe[j]).item.content,
                            key@,
                        ) by {
                            assert(pc[j] == pe[j].item.content);
                        }
                        lemma_entry_ids_remove(pe, key@, i as int, pe.len() as int);
                        let ids = entry_ids(pe, key@, pe.len() as int);
                        let rest = entry_ids(pe.remove(i as int), key@, pe.len() - 1);
                        assert(ids == seq![pe[i as int].item.id] + rest);
                        assert(ids[0] == pe[i as int].item.id);
                        assert(ids[0] == targets[items.len() as int]);
                        assert(rest =~= ids.subrange(1, ids.len() as int));
                        assert(ids.subrange(1, ids.len() as int) =~= targets.subrange(
                            items.len() + 1,
                            targets.len() as int,
                        ));
                    }
                    let item = self.delete_at(ty, i);
                    proof {
                        lemma_others_trans(start, prev, self.nodes(), Some(ty.head));
                        lemma_extends_trans(start, prev, self.nodes());
                        assert(items_view(items@.push(item)).drop_last() =~= prev_items);
                        lemma_steady_push(start, prev_items, item@);
                        assert(items_view(items@.push(item)) =~= prev_items.push(item@));
                lemma_steady_push(start, prev_items, item@);
                assert(items_view(items@.push(item)) =~= prev_items.push(item@));
                        assert(items_view(items@.push(item)).last() == item@);
                        assert(item@ == all[items.len() as int]);
                        assert(items_view(items@.push(item)) =~= all.subrange(0, items.len() + 1));
                    }
                    items.push(item);
                    left = left - 1;
                },
            }
        }
        proof {
            let fc = self.contents(*ty);
            lemma_first_entry(fc, key@, 0);
            lemma_without_none(fc, key@, fc.len() as int);
            assert(fc.subrange(0, fc.len() as int) =~= fc);
            assert(left == 0);
            assert(all.subrange(0, items.len() as int) =~= all);
        }
        Ok(items)
    }

    /// The number of entries for `key` that the mapping shows.
    fn count_entries(&self, mi: usize, ty: &TypeRef, key: &String) -> (r: usize)
        requires
            self.wf(),
            valid_type(self.nodes(), *ty),
            mi == index_of(self.nodes(), ty.head),
        ensures
            r == count_key(self.contents(*ty), key@, self.contents(*ty).len() as int),
    {
        let idxs = self.collect(mi, ty);
        let ghost contents = self.contents(*ty);
        let mut total: usize = 0;
        let mut k: usize = 0;
        while k < idxs.len()
            invariant
                self.wf(),
                contents == self.contents(*ty),
                k <= idxs.len(),
                idxs.len() == contents.len(),
                forall|j: int|
                    0 <= j < idxs.len() ==> #[trigger] idxs[j] < self.nodes().len()
                        && self.nodes()[idxs[j] as int] == elements(self.nodes(), *ty)[j],
                total == count_key(contents, key@, k as int),
                total <= k,
            decreases idxs.len() - k,
        {
            let i = idxs[k];
            assert(self.store.nodes[i as int]@ == self.nodes()[i as int]);
            assert(contents[k as int] == self.nodes()[i as int].item.content);
            match &self.store.nodes[i].item.content {
                Content::Entry(name, _) => {
                    if *name == *key {
                        total += 1;
                    }
                },
                _ => {},
            }
            k += 1;
        }
        total
    }
}

} // verus!
