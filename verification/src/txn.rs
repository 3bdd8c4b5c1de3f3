//! Transactions: the unit in which a replica writes. A transaction is
//! open, then committing, then closed; while it is open it takes edits, which
//! the document integrates as they come, and on commit it gives the update
//! that carries them to other replicas.

use crate::any::{Any};
use crate::doc::{steady, 
    all_elems, chars_of, contents_view, delete_error, entry_ids, insert_error, integrate_all,
    lookup, without_key, Doc, DocError,
};
use crate::item::{items_view, Content, ContentView, Item, ItemView, TypeKind};
use crate::shared::{
    elem_of, elements, ids_of, is_head, lemma_others_refl, local_head, others_kept, tombstones,
    valid_type, written, TypeRef,
};
use crate::store::{extends, index_of, integrate_spec, NodeView};
use crate::update::{encode_update, update_bytes};
use vstd::prelude::*;
use vstd::string::StrSliceExecFns;

verus! {

/// Where a transaction stands.
#[derive(Clone, Copy, Debug, PartialEq, Eq, Structural)]
pub enum TxnState {
    /// It takes edits.
    Open,
    /// Its update is being encoded.
    Committing,
    /// It is over; it takes no more edits.
    Closed,
}

/// What happens to a transaction.
#[derive(Clone, Copy, Debug, PartialEq, Eq, Structural)]
pub enum TxnEvent {
    /// An edit is asked for.
    Edit,
    /// The commit begins.
    Commit,
    /// The update is encoded.
    Encoded,
    /// The transaction is given up.
    Abort,
}

/// The state after an event, or `None` where the state does not take it.
pub open spec fn txn_step(state: TxnState, event: TxnEvent) -> Option<TxnState> {
    match (state, event) {
        (TxnState::Open, TxnEvent::Edit) => Some(TxnState::Open),
        (TxnState::Open, TxnEvent::Commit) => Some(TxnState::Committing),
        (TxnState::Open, TxnEvent::Abort) => Some(TxnState::Closed),
        (TxnState::Committing, TxnEvent::Encoded) => Some(TxnState::Closed),
        _ => None,
    }
}

/// The state after an event, or `None` where the state does not take it.
pub fn step(state: TxnState, event: TxnEvent) -> (r: Option<TxnState>)
    ensures
        r == txn_step(state, event),
{
    match (state, event) {
        (TxnState::Open, TxnEvent::Edit) => Some(TxnState::Open),
        (TxnState::Open, TxnEvent::Commit) => Some(TxnState::Committing),
        (TxnState::Open, TxnEvent::Abort) => Some(TxnState::Closed),
        (TxnState::Committing, TxnEvent::Encoded) => Some(TxnState::Closed),
        _ => None,
    }
}

/// Some head of this kind bears this name.
pub open spec fn names_type(nodes: Seq<NodeView>, kind: TypeKind, name: Seq<char>) -> bool {
    exists|j: int|
        is_head(nodes, j, kind) && (#[trigger] nodes[j]).item.content == ContentView::Marker(
            kind,
            name,
        )
}

/// A transaction on a document.
pub struct Transaction {
    pub state: TxnState,
    /// The items written so far.
    pub items: Vec<Item>,
}

/// The contents are the characters of the text, one for one.
pub open spec fn spells(contents: Seq<ContentView>, text: Seq<char>) -> bool {
    &&& contents.len() == text.len()
    &&& forall|k: int|
        0 <= k < contents.len() ==> (#[trigger] contents[k]) is Char && contents[k]->Char_0
            == text[k]
}

/// The error with which `insert_text` answers for a text of `n`
/// characters; `None` where it succeeds.
pub open spec fn text_error(doc: Doc, ty: TypeRef, index: nat, n: nat) -> Option<DocError> {
    if !valid_type(doc.nodes(), ty) {
        Some(DocError::UnknownType)
    } else if n > 0 && ty.kind != TypeKind::Text {
        Some(DocError::KindMismatch)
    } else if index > doc.contents(ty).len() {
        Some(DocError::OutOfBounds)
    } else if doc.blocked(n) {
        Some(DocError::Blocked)
    } else {
        None
    }
}

/// Moves the items of `src` behind those of `dst`.
fn move_all(dst: &mut Vec<Item>, src: Vec<Item>)
    ensures
        items_view(final(dst)@) == items_view(old(dst)@) + items_view(src@),
{
    let ghost all = items_view(src@);
    let ghost start = items_view(dst@);
    let mut src = src;
    let mut back: Vec<Item> = Vec::new();
    while src.len() > 0
        invariant
            back.len() + src.len() == all.len(),
            forall|k: int| 0 <= k < src.len() ==> (#[trigger] src[k])@ == all[k],
            forall|k: int| 0 <= k < back.len() ==> (#[trigger] back[k])@ == all[all.len() - 1 - k],
        decreases src.len(),
    {
        let item = src.pop().unwrap();
        back.push(item);
    }
    let ghost mut moved: Seq<ItemView> = Seq::empty();
    assert(items_view(dst@) =~= start + moved);
    while back.len() > 0
        invariant
            moved.len() + back.len() == all.len(),
            forall|k: int| 0 <= k < back.len() ==> (#[trigger] back[k])@ == all[all.len() - 1 - k],
            forall|k: int| 0 <= k < moved.len() ==> moved[k] == all[k],
            items_view(dst@) == start + moved,
        decreases back.len(),
    {
        let item = back.pop().unwrap();
        let ghost before = items_view(dst@);
        proof {
            moved = moved.push(item@);
        }
        dst.push(item);
        assert(items_view(dst@) =~= before.push(item@));
        assert(before.push(item@) =~= start + moved);
    }
    assert(moved =~= all);
}

impl Transaction {
    /// The transaction takes edits on this document.
    pub open spec fn active(&self, doc: &Doc) -> bool {
        self.state == TxnState::Open && doc.busy
    }

    /// Opens a transaction on the document, unless one is open.
    pub fn begin(doc: &mut Doc) -> (r: Result<Transaction, DocError>)
        ensures
            final(doc).replica == old(doc).replica,
            final(doc).store == old(doc).store,
            match r {
                Ok(txn) => !old(doc).busy && final(doc).busy && txn.state == TxnState::Open
                    && txn.items.len() == 0,
                Err(e) => e == DocError::TransactionOpen && old(doc).busy && final(doc).busy,
            },
    {
        if doc.busy {
            return Err(DocError::TransactionOpen);
        }
        doc.busy = true;
        Ok(Transaction { state: TxnState::Open, items: Vec::new() })
    }

    /// The handle on the first shared type of this kind and name; where
    /// there is none yet, the head of a new one is written.
    pub fn shared(&mut self, doc: &mut Doc, kind: TypeKind, name: &String) -> (r: Result<
        TypeRef,
        DocError,
    >)
        requires
            old(doc).wf(),
        ensures
            final(doc).wf(),
            final(doc).replica == old(doc).replica,
            final(doc).busy == old(doc).busy,
            final(doc).store@.pending == old(doc).store@.pending,
            final(doc).store@.limit == old(doc).store@.limit,
            final(self).state == old(self).state,
            extends(old(doc).nodes(), final(doc).nodes()),
            others_kept(old(doc).nodes(), final(doc).nodes(), None),
            !old(self).active(old(doc)) ==> r == Err::<TypeRef, DocError>(
                DocError::TransactionClosed,
            ) && final(doc).store@ == old(doc).store@ && final(self).items == old(self).items,
            old(self).active(old(doc)) ==> match r {
                Ok(ty) => {
                    &&& valid_type(final(doc).nodes(), ty)
                    &&& ty.kind == kind
                    &&& final(doc).nodes()[index_of(final(doc).nodes(), ty.head)].item.content
                        == ContentView::Marker(kind, name@)
                    &&& if names_type(old(doc).nodes(), kind, name@) {
                        final(doc).store@ == old(doc).store@ && final(self).items == old(
                            self,
                        ).items && valid_type(old(doc).nodes(), ty)
                    } else {
                        !old(doc).blocked(1) && final(doc).contents(ty).len() == 0 && items_view(
                            final(self).items@,
                        ) == items_view(old(self).items@).push(
                            local_head(old(doc).nodes(), old(doc).replica, kind, name@),
                        ) && final(doc).nodes() == integrate_spec(
                            old(doc).nodes(),
                            local_head(old(doc).nodes(), old(doc).replica, kind, name@),
                        )
                    }
                },
                Err(e) => e == DocError::Blocked && old(doc).blocked(1) && !names_type(
                    old(doc).nodes(),
                    kind,
                    name@,
                ) && final(doc).nodes() == old(doc).nodes() && final(self).items == old(
                    self,
                ).items,
            },
    {
        proof {
            crate::store::lemma_extends_refl(doc.nodes());
            lemma_others_refl(doc.nodes(), None);
        }
        if !self.is_active(doc) {
            return Err(DocError::TransactionClosed);
        }
        match doc.find_type(kind, name) {
            Some(ty) => {
                proof {
                    let i = index_of(doc.nodes(), ty.head);
                    assert(is_head(doc.nodes(), i, kind));
                }
                Ok(ty)
            },
            None => match doc.create_type(kind, name) {
                Err(e) => Err(e),
                Ok((ty, item)) => {
                    let ghost before = items_view(self.items@);
                    self.items.push(item);
                    assert(items_view(self.items@) =~= before.push(item@));
                    Ok(ty)
                },
            },
        }
    }

    fn is_active(&self, doc: &Doc) -> (r: bool)
        ensures
            r == self.active(doc),
    {
        let open = match self.state {
            TxnState::Open => true,
            _ => false,
        };
        open && doc.busy
    }

    /// Writes contents as new elements of a type, the first at `index`.
    pub fn insert(&mut self, doc: &mut Doc, ty: &TypeRef, index: usize, contents: &Vec<Content>)
        -> (r: Result<(), DocError>)
        requires
            old(doc).wf(),
        ensures
            final(doc).wf(),
            final(doc).replica == old(doc).replica,
            final(doc).busy == old(doc).busy,
            final(doc).store@.pending == old(doc).store@.pending,
            final(doc).store@.limit == old(doc).store@.limit,
            final(self).state == old(self).state,
            extends(old(doc).nodes(), final(doc).nodes()),
            others_kept(old(doc).nodes(), final(doc).nodes(), Some(ty.head)),
            r is Err ==> final(doc).store@ == old(doc).store@ && final(self).items == old(
                self,
            ).items,
            !old(self).active(old(doc)) ==> r == Err::<(), DocError>(DocError::TransactionClosed),
            old(self).active(old(doc)) ==> match r {
                Ok(_) => {
                    &&& insert_error(*old(doc), *ty, index as nat, contents_view(contents@)) is None
                    &&& valid_type(final(doc).nodes(), *ty)
                    &&& final(doc).contents(*ty) == old(doc).contents(*ty).subrange(
                        0,
                        index as int,
                    ) + contents_view(contents@) + old(doc).contents(*ty).subrange(
                        index as int,
                        old(doc).contents(*ty).len() as int,
                    )
                    &&& items_view(final(self).items@) == items_view(old(self).items@) + written(
                        old(doc).nodes(),
                        old(doc).replica,
                        *ty,
                        index as int,
                        contents_view(contents@),
                    )
                    &&& final(doc).nodes() == integrate_all(
                        old(doc).nodes(),
                        written(
                            old(doc).nodes(),
                            old(doc).replica,
                            *ty,
                            index as int,
                            contents_view(contents@),
                        ),
                    )
                    &&& steady(
                        old(doc).nodes(),
                        written(
                            old(doc).nodes(),
                            old(doc).replica,
                            *ty,
                            index as int,
                            contents_view(contents@),
                        ),
                    )
                },
                Err(e) => insert_error(*old(doc), *ty, index as nat, contents_view(contents@))
                    == Some(e),
            },
    {
        proof {
            crate::store::lemma_extends_refl(doc.nodes());
            lemma_others_refl(doc.nodes(), Some(ty.head));
        }
        if !self.is_active(doc) {
            return Err(DocError::TransactionClosed);
        }
        match doc.insert_run(ty, index, contents) {
            Err(e) => Err(e),
            Ok(items) => {
                move_all(&mut self.items, items);
                Ok(())
            },
        }
    }

    /// Writes the characters into a text, the first at `index`.
    pub fn insert_text(&mut self, doc: &mut Doc, ty: &TypeRef, index: usize, text: &str) -> (r:
        Result<(), DocError>)
        requires
            old(doc).wf(),
        ensures
            final(doc).wf(),
            final(doc).replica == old(doc).replica,
            final(doc).busy == old(doc).busy,
            final(doc).store@.pending == old(doc).store@.pending,
            final(doc).store@.limit == old(doc).store@.limit,
            final(self).state == old(self).state,
            extends(old(doc).nodes(), final(doc).nodes()),
            others_kept(old(doc).nodes(), final(doc).nodes(), Some(ty.head)),
            r is Err ==> final(doc).store@ == old(doc).store@ && final(self).items == old(
                self,
            ).items,
            !old(self).active(old(doc)) ==> r == Err::<(), DocError>(DocError::TransactionClosed),
            old(self).active(old(doc)) ==> match r {
                Ok(_) => {
                    &&& text_error(*old(doc), *ty, index as nat, text@.len()) is None
                    &&& valid_type(final(doc).nodes(), *ty)
                    &&& final(doc).contents(*ty).len() == old(doc).contents(*ty).len() + text@.len()
                    &&& chars_of(final(doc).contents(*ty)) == chars_of(
                        old(doc).contents(*ty),
                    ).subrange(0, index as int) + text@ + chars_of(old(doc).contents(*ty)).subrange(
                        index as int,
                        old(doc).contents(*ty).len() as int,
                    )
                    &&& exists|contents: Seq<ContentView>|
                        spells(contents, text@) && items_view(final(self).items@) == items_view(
                            old(self).items@,
                        ) + written(
                            old(doc).nodes(),
                            old(doc).replica,
                            *ty,
                            index as int,
                            contents,
                        ) && final(doc).nodes() == integrate_all(
                            old(doc).nodes(),
                            written(old(doc).nodes(), old(doc).replica, *ty, index as int, contents),
                        ) && steady(
                            old(doc).nodes(),
                            written(
                                old(doc).nodes(),
                                old(doc).replica,
                                *ty,
                                index as int,
                                contents,
                            ),
                        )
                },
                Err(e) => text_error(*old(doc), *ty, index as nat, text@.len()) == Some(e),
            },
    {
        let n = text.unicode_len();
        let mut contents: Vec<Content> = Vec::new();
        let mut i: usize = 0;
        while i < n
            invariant
                i <= n,
                n == text@.len(),
                contents.len() == i,
                forall|j: int|
                    0 <= j < i ==> (#[trigger] contents[j])@ is Char && contents[j]@->Char_0
                        == text@[j],
            decreases n - i,
        {
            let c = text.get_char(i);
            contents.push(Content::Char(c));
            i += 1;
        }
        let ghost cv = contents_view(contents@);
        proof {
            assert(chars_of(cv) =~= text@);
            if ty.kind == TypeKind::Text {
                assert(all_elems(ty.kind, cv));
            } else if n > 0 {
                assert(!elem_of(ty.kind, cv[0]));
            }
        }
        let r = self.insert(doc, ty, index, &contents);
        proof {
            if r is Ok {
                assert(spells(cv, text@));
                let oc = old(doc).contents(*ty);
                let a = oc.subrange(0, index as int);
                let b = oc.subrange(index as int, oc.len() as int);
                assert(chars_of(a + cv + b) =~= chars_of(oc).subrange(0, index as int) + text@
                    + chars_of(oc).subrange(index as int, oc.len() as int));
            }
        }
        r
    }

    /// Writes the value into an array at `index`.
    pub fn insert_value(&mut self, doc: &mut Doc, ty: &TypeRef, index: usize, value: Any) -> (r:
        Result<(), DocError>)
        requires
            old(doc).wf(),
        ensures
            final(doc).wf(),
            final(doc).replica == old(doc).replica,
            final(doc).busy == old(doc).busy,
            final(doc).store@.pending == old(doc).store@.pending,
            final(doc).store@.limit == old(doc).store@.limit,
            final(self).state == old(self).state,
            extends(old(doc).nodes(), final(doc).nodes()),
            others_kept(old(doc).nodes(), final(doc).nodes(), Some(ty.head)),
            r is Err ==> final(doc).store@ == old(doc).store@ && final(self).items == old(
                self,
            ).items,
            !old(self).active(old(doc)) ==> r == Err::<(), DocError>(DocError::TransactionClosed),
            old(self).active(old(doc)) ==> match r {
                Ok(_) => {
                    &&& insert_error(
                        *old(doc),
                        *ty,
                        index as nat,
                        seq![ContentView::Value(value@)],
                    ) is None
                    &&& valid_type(final(doc).nodes(), *ty)
                    &&& final(doc).contents(*ty) == old(doc).contents(*ty).insert(
                        index as int,
                        ContentView::Value(value@),
                    )
                    &&& items_view(final(self).items@) == items_view(old(self).items@) + written(
                        old(doc).nodes(),
                        old(doc).replica,
                        *ty,
                        index as int,
                        seq![ContentView::Value(value@)],
                    )
                    &&& final(doc).nodes() == integrate_all(
                        old(doc).nodes(),
                        written(
                            old(doc).nodes(),
                            old(doc).replica,
                            *ty,
                            index as int,
                            seq![ContentView::Value(value@)],
                        ),
                    )
                    &&& steady(
                        old(doc).nodes(),
                        written(
                            old(doc).nodes(),
                            old(doc).replica,
                            *ty,
                            index as int,
                            seq![ContentView::Value(value@)],
                        ),
                    )
                },
                Err(e) => insert_error(
                    *old(doc),
                    *ty,
                    index as nat,
                    seq![ContentView::Value(value@)],
                ) == Some(e),
            },
    {
        let mut contents: Vec<Content> = Vec::new();
        contents.push(Content::Value(value));
        assert(contents_view(contents@) =~= seq![ContentView::Value(value@)]);
        let r = self.insert(doc, ty, index, &contents);
        proof {
            if r is Ok {
                let c = old(doc).contents(*ty);
                assert(c.subrange(0, index as int) + seq![ContentView::Value(value@)] + c.subrange(
                    index as int,
                    c.len() as int,
                ) =~= c.insert(index as int, ContentView::Value(value@)));
            }
        }
        r
    }

    /// Writes a value for `key` into a mapping: an entry in front of all
    /// others, so that it is what the key shows.
    pub fn map_set(&mut self, doc: &mut Doc, ty: &TypeRef, key: String, value: Any) -> (r: Result<
        (),
        DocError,
    >)
        requires
            old(doc).wf(),
        ensures
            final(doc).wf(),
            final(doc).replica == old(doc).replica,
            final(doc).busy == old(doc).busy,
            final(doc).store@.pending == old(doc).store@.pending,
            final(doc).store@.limit == old(doc).store@.limit,
            final(self).state == old(self).state,
            extends(old(doc).nodes(), final(doc).nodes()),
            others_kept(old(doc).nodes(), final(doc).nodes(), Some(ty.head)),
            r is Err ==> final(doc).store@ == old(doc).store@ && final(self).items == old(
                self,
            ).items,
            !old(self).active(old(doc)) ==> r == Err::<(), DocError>(DocError::TransactionClosed),
            old(self).active(old(doc)) ==> match r {
                Ok(_) => {
                    &&& insert_error(
                        *old(doc),
                        *ty,
                        0,
                        seq![ContentView::Entry(key@, value@)],
                    ) is None
                    &&& valid_type(final(doc).nodes(), *ty)
                    &&& final(doc).contents(*ty) == old(doc).contents(*ty).insert(
                        0,
                        ContentView::Entry(key@, value@),
                    )
                    &&& lookup(final(doc).contents(*ty), key@) == Some(value@)
                    &&& items_view(final(self).items@) == items_view(old(self).items@) + written(
                        old(doc).nodes(),
                        old(doc).replica,
                        *ty,
                        0,
                        seq![ContentView::Entry(key@, value@)],
                    )
                    &&& final(doc).nodes() == integrate_all(
                        old(doc).nodes(),
                        written(
                            old(doc).nodes(),
                            old(doc).replica,
                            *ty,
                            0,
                            seq![ContentView::Entry(key@, value@)],
                        ),
                    )
                    &&& steady(
                        old(doc).nodes(),
                        written(
                            old(doc).nodes(),
                            old(doc).replica,
                            *ty,
                            0,
                            seq![ContentView::Entry(key@, value@)],
                        ),
                    )
                },
                Err(e) => insert_error(
                    *old(doc),
                    *ty,
                    0,
                    seq![ContentView::Entry(key@, value@)],
                ) == Some(e),
            },
    {
        let ghost entry = ContentView::Entry(key@, value@);
        let mut contents: Vec<Content> = Vec::new();
        contents.push(Content::Entry(key, value));
        assert(contents_view(contents@) =~= seq![entry]);
        let r = self.insert(doc, ty, 0, &contents);
        proof {
            if r is Ok {
                let c = old(doc).contents(*ty);
                assert(c.subrange(0, 0) + seq![entry] + c.subrange(0, c.len() as int) =~= c.insert(
                    0,
                    entry,
                ));
                assert(c.insert(0, entry)[0] == entry);
            }
        }
        r
    }

    /// Writes tombstones for the `count` elements that the type shows from
    /// `index` on.
    pub fn delete(&mut self, doc: &mut Doc, ty: &TypeRef, index: usize, count: usize) -> (r: Result<
        (),
        DocError,
    >)
        requires
            old(doc).wf(),
        ensures
            final(doc).wf(),
            final(doc).replica == old(doc).replica,
            final(doc).busy == old(doc).busy,
            final(doc).store@.pending == old(doc).store@.pending,
            final(doc).store@.limit == old(doc).store@.limit,
            final(self).state == old(self).state,
            extends(old(doc).nodes(), final(doc).nodes()),
            others_kept(old(doc).nodes(), final(doc).nodes(), Some(ty.head)),
            r is Err ==> final(doc).store@ == old(doc).store@ && final(self).items == old(
                self,
            ).items,
            !old(self).active(old(doc)) ==> r == Err::<(), DocError>(DocError::TransactionClosed),
            old(self).active(old(doc)) ==> match r {
                Ok(_) => {
                    &&& delete_error(*old(doc), *ty, index as nat, count as nat) is None
                    &&& valid_type(final(doc).nodes(), *ty)
                    &&& final(doc).contents(*ty) == old(doc).contents(*ty).subrange(
                        0,
                        index as int,
                    ) + old(doc).contents(*ty).subrange(
                        index + count,
                        old(doc).contents(*ty).len() as int,
                    )
                    &&& items_view(final(self).items@) == items_view(old(self).items@)
                        + tombstones(
                        old(doc).nodes(),
                        old(doc).replica,
                        ids_of(elements(old(doc).nodes(), *ty)).subrange(
                            index as int,
                            index + count,
                        ),
                    )
                    &&& final(doc).nodes() == integrate_all(
                        old(doc).nodes(),
                        tombstones(
                            old(doc).nodes(),
                            old(doc).replica,
                            ids_of(elements(old(doc).nodes(), *ty)).subrange(
                                index as int,
                                index + count,
                            ),
                        ),
                    )
                    &&& steady(
                        old(doc).nodes(),
                        tombstones(
                            old(doc).nodes(),
                            old(doc).replica,
                            ids_of(
                                elements(old(doc).nodes(), *ty)).subrange(index as int,
                                index + count,
                            ),
                        ),
                    )
                },
                Err(e) => delete_error(*old(doc), *ty, index as nat, count as nat) == Some(e),
            },
    {
        proof {
            crate::store::lemma_extends_refl(doc.nodes());
            lemma_others_refl(doc.nodes(), Some(ty.head));
        }
        if !self.is_active(doc) {
            return Err(DocError::TransactionClosed);
        }
        match doc.delete_run(ty, index, count) {
            Err(e) => Err(e),
            Ok(items) => {
                move_all(&mut self.items, items);
                Ok(())
            },
        }
    }

    /// Writes tombstones for every entry that the mapping shows for `key`.
    pub fn map_delete(&mut self, doc: &mut Doc, ty: &TypeRef, key: &String) -> (r: Result<
        (),
        DocError,
    >)
        requires
            old(doc).wf(),
        ensures
            final(doc).wf(),
            final(doc).replica == old(doc).replica,
            final(doc).busy == old(doc).busy,
            final(doc).store@.pending == old(doc).store@.pending,
            final(doc).store@.limit == old(doc).store@.limit,
            final(self).state == old(self).state,
            extends(old(doc).nodes(), final(doc).nodes()),
            others_kept(old(doc).nodes(), final(doc).nodes(), Some(ty.head)),
            r is Err ==> final(doc).store@ == old(doc).store@ && final(self).items == old(
                self,
            ).items,
            !old(self).active(old(doc)) ==> r == Err::<(), DocError>(DocError::TransactionClosed),
            old(self).active(old(doc)) ==> match r {
                Ok(_) => {
                    &&& valid_type(old(doc).nodes(), *ty)
                    &&& valid_type(final(doc).nodes(), *ty)
                    &&& final(doc).contents(*ty) == without_key(
                        old(doc).contents(*ty),
                        key@,
                        old(doc).contents(*ty).len() as int,
                    )
                    &&& lookup(final(doc).contents(*ty), key@) is None
                    &&& items_view(final(self).items@) == items_view(old(self).items@)
                        + tombstones(
                        old(doc).nodes(),
                        old(doc).replica,
                        entry_ids(
                            elements(old(doc).nodes(), *ty),
                            key@,
                            elements(old(doc).nodes(), *ty).len() as int,
                        ),
                    )
                    &&& final(doc).nodes() == integrate_all(
                        old(doc).nodes(),
                        tombstones(
                            old(doc).nodes(),
                            old(doc).replica,
                            entry_ids(
                                elements(old(doc).nodes(), *ty),
                                key@,
                                elements(old(doc).nodes(), *ty).len() as int,
                            ),
                        ),
                    )
                    &&& steady(
                        old(doc).nodes(),
                        tombstones(
                            old(doc).nodes(),
                            old(doc).replica,
                            entry_ids(
                                elements(old(doc).nodes(), *ty),
                                key@,
                                elements(old(doc).nodes(), *ty).len() as int,
                            ),
                        ),
                    )
                },
                Err(e) => if valid_type(old(doc).nodes(), *ty) {
                    e == DocError::Blocked && old(doc).blocked(entry_ids(
                        elements(old(doc).nodes(), *ty),
                        key@,
                        elements(old(doc).nodes(), *ty).len() as int,
                    ).len())
                } else {
                    e == DocError::UnknownType
                },
            },
    {
        proof {
            crate::store::lemma_extends_refl(doc.nodes());
            lemma_others_refl(doc.nodes(), Some(ty.head));
        }
        if !self.is_active(doc) {
            return Err(DocError::TransactionClosed);
        }
        proof {
            if valid_type(doc.nodes(), *ty) {
                crate::doc::lemma_entry_ids_count(
                    elements(doc.nodes(), *ty),
                    key@,
                    elements(doc.nodes(), *ty).len() as int,
                );
            }
        }
        match doc.map_delete(ty, key) {
            Err(e) => Err(e),
            Ok(items) => {
                move_all(&mut self.items, items);
                Ok(())
            },
        }
    }

    /// Closes the transaction and gives the update that carries what it
    /// wrote.
    pub fn commit(&mut self, doc: &mut Doc) -> (r: Result<Vec<u8>, DocError>)
        ensures
            final(doc).replica == old(doc).replica,
            final(doc).store == old(doc).store,
            final(self).items == old(self).items,
            match r {
                Ok(bytes) => old(self).active(old(doc)) && bytes@ == update_bytes(
                    items_view(old(self).items@),
                    0,
                ) && final(self).state == TxnState::Closed && !final(doc).busy,
                Err(e) => e == DocError::TransactionClosed && !old(self).active(old(doc))
                    && final(self).state == old(self).state && final(doc).busy == old(doc).busy,
            },
    {
        if !self.is_active(doc) {
            return Err(DocError::TransactionClosed);
        }
        self.state = TxnState::Committing;
        let bytes = encode_update(&self.items);
        self.state = TxnState::Closed;
        doc.busy = false;
        Ok(bytes)
    }

    /// Closes the transaction without an update. What it wrote stays in
    /// the document; other replicas learn of it with a later exchange.
    pub fn abort(&mut self, doc: &mut Doc) -> (r: Result<(), DocError>)
        ensures
            final(doc).replica == old(doc).replica,
            final(doc).store == old(doc).store,
            final(self).items == old(self).items,
            match r {
                Ok(_) => old(self).active(old(doc)) && final(self).state == TxnState::Closed
                    && !final(doc).busy,
                Err(e) => e == DocError::TransactionClosed && !old(self).active(old(doc))
                    && final(self).state == old(self).state && final(doc).busy == old(doc).busy,
            },
    {
        if !self.is_active(doc) {
            return Err(DocError::TransactionClosed);
        }
        self.state = TxnState::Closed;
        doc.busy = false;
        Ok(())
    }
}

} // verus!
