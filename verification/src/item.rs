//! Edit records: what the block store keeps and what replicas exchange.

use crate::any::{Any, AnyView};
use vstd::prelude::*;

verus! {

/// The identity of an item: the replica that wrote it and its number in that
/// replica's own history.
#[derive(Clone, Copy, Debug, PartialEq, Eq, Structural)]
pub struct BlockId {
    pub replica: u64,
    pub clock: u64,
}

/// The kinds of shared type.
#[derive(Clone, Copy, Debug, PartialEq, Eq, Structural)]
pub enum TypeKind {
    /// An ordered sequence of values.
    Array,
    /// Keys with the value last written for each.
    Mapping,
    /// An ordered sequence of characters.
    Text,
}

/// What an item carries.
#[derive(Debug, PartialEq, Eq)]
pub enum Content {
    /// An element of an array.
    Value(Any),
    /// A character of a text.
    Char(char),
    /// A key of a map with the value written for it.
    Entry(String, Any),
    /// The head of a shared type of the given kind and name.
    Marker(TypeKind, String),
    /// The tombstone of the named item.
    Delete(BlockId),
}

/// The mathematical value of a [`Content`].
pub ghost enum ContentView {
    Value(AnyView),
    Char(char),
    Entry(Seq<char>, AnyView),
    Marker(TypeKind, Seq<char>),
    Delete(BlockId),
}

impl View for Content {
    type V = ContentView;

    open spec fn view(&self) -> ContentView {
        match self {
            Content::Value(v) => ContentView::Value(v@),
            Content::Char(c) => ContentView::Char(*c),
            Content::Entry(k, v) => ContentView::Entry(k@, v@),
            Content::Marker(kind, name) => ContentView::Marker(*kind, name@),
            Content::Delete(id) => ContentView::Delete(*id),
        }
    }
}

impl Content {
    /// A copy of the content.
    pub fn cloned(&self) -> (r: Content)
        ensures
            r@ == self@,
    {
        match self {
            Content::Value(v) => Content::Value(v.cloned()),
            Content::Char(c) => Content::Char(*c),
            Content::Entry(k, v) => Content::Entry(k.clone(), v.cloned()),
            Content::Marker(kind, name) => Content::Marker(*kind, name.clone()),
            Content::Delete(id) => Content::Delete(*id),
        }
    }
}

/// An edit record. `left` and `right` name the neighbours between which it
/// was written; an item without a left origin heads a sequence of its own.
/// An item stands for one position: spans of several exist on the wire only,
/// where items that chain share a wire item. Once an item is integrated the
/// store keeps its tombstone flag.
#[derive(Debug, PartialEq, Eq)]
pub struct Item {
    pub id: BlockId,
    pub left: Option<BlockId>,
    pub right: Option<BlockId>,
    pub content: Content,
}

/// The mathematical value of an [`Item`].
pub ghost struct ItemView {
    pub id: BlockId,
    pub left: Option<BlockId>,
    pub right: Option<BlockId>,
    pub content: ContentView,
}

impl View for Item {
    type V = ItemView;

    open spec fn view(&self) -> ItemView {
        ItemView { id: self.id, left: self.left, right: self.right, content: self.content@ }
    }
}

impl Item {
    /// A copy of the item.
    pub fn cloned(&self) -> (r: Item)
        ensures
            r@ == self@,
    {
        Item { id: self.id, left: self.left, right: self.right, content: self.content.cloned() }
    }
}

/// The views of a vector of items.
pub open spec fn items_view(items: Seq<Item>) -> Seq<ItemView> {
    Seq::new(items.len(), |i: int| items[i]@)
}

} // verus!
