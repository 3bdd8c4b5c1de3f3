//! The update buffer: items on the wire. An update is a sequence of runs;
//! a run names a replica and a first clock and holds wire items; a wire item
//! is a content tag, two optional origins, a length and that many payloads,
//! and stands for as many items with consecutive clocks, each but the first
//! with its forerunner as left origin. The encoder puts items that follow one
//! another on a replica's clock into one run, and those of them that chain
//! into one wire item.

use crate::any::{
    within_depth, MAX_DEPTH,
    any_at, any_bytes, fits, holds_at, keys_sorted, lemma_any_bytes_nonempty, lemma_any_round_trip,
    lemma_holds_split, lemma_str_round_trip, read_str, str_at, str_bytes, write_str, Any,
    CodecError,
};
use crate::item::{items_view, BlockId, Content, ContentView, Item, ItemView, TypeKind};
use crate::varint::{
    lemma_cap_zero, lemma_varint_at_bounds, lemma_varint_round_trip, read_varint, varint_at,
    varint_bytes, write_varint,
};
use vstd::prelude::*;
use vstd::utf8::encode_utf8;

verus! {

/// Content tags. Values of an array follow.
pub const CONTENT_VALUE: u8 = 1;

/// Characters of a text follow.
pub const CONTENT_CHAR: u8 = 2;

/// Entries of a mapping follow.
pub const CONTENT_ENTRY: u8 = 3;

/// Heads of shared types follow.
pub const CONTENT_MARKER: u8 = 4;

/// Tombstones follow.
pub const CONTENT_DELETE: u8 = 5;

/// The clock after `clock`; the last clock is followed by the first.
pub open spec fn clock_after(clock: u64) -> u64 {
    if clock == u64::MAX {
        0
    } else {
        (clock + 1) as u64
    }
}

/// An identity on the wire: replica, then clock.
pub open spec fn id_bytes(id: BlockId) -> Seq<u8> {
    varint_bytes(id.replica as nat) + varint_bytes(id.clock as nat)
}

/// The identity at `pos`: replica, then clock.
pub open spec fn id_at(b: Seq<u8>, pos: int) -> Result<(BlockId, int), CodecError> {
    match varint_at(b, pos, 0) {
        None => Err(CodecError::Truncated),
        Some((replica, mid)) => match varint_at(b, mid, 0) {
            None => Err(CodecError::Truncated),
            Some((clock, next)) => Ok(
                (BlockId { replica: replica as u64, clock: clock as u64 }, next),
            ),
        },
    }
}

/// An optional identity: a zero byte for none, a one and the identity else.
pub open spec fn origin_bytes(o: Option<BlockId>) -> Seq<u8> {
    match o {
        None => seq![0u8],
        Some(id) => seq![1u8] + id_bytes(id),
    }
}

/// The optional identity at `pos`.
pub open spec fn origin_at(b: Seq<u8>, pos: int) -> Result<(Option<BlockId>, int), CodecError> {
    if pos < 0 || pos >= b.len() {
        Err(CodecError::Truncated)
    } else if b[pos] == 0 {
        Ok((None, pos + 1))
    } else if b[pos] == 1 {
        match id_at(b, pos + 1) {
            Err(e) => Err(e),
            Ok((id, next)) => Ok((Some(id), next)),
        }
    } else {
        Err(CodecError::InvalidTag)
    }
}

/// The byte that stands for a kind of shared type.
pub open spec fn kind_byte(kind: TypeKind) -> u8 {
    match kind {
        TypeKind::Array => 0,
        TypeKind::Mapping => 1,
        TypeKind::Text => 2,
    }
}

/// The tag of a content.
pub open spec fn content_tag(c: ContentView) -> u8 {
    match c {
        ContentView::Value(_) => CONTENT_VALUE,
        ContentView::Char(_) => CONTENT_CHAR,
        ContentView::Entry(_, _) => CONTENT_ENTRY,
        ContentView::Marker(_, _) => CONTENT_MARKER,
        ContentView::Delete(_) => CONTENT_DELETE,
    }
}

/// The scalar value names a character.
pub open spec fn is_char(u: nat) -> bool {
    u <= 0xD7FF || 0xE000 <= u <= 0x10FFFF
}

/// One payload: a value; a character by its scalar value; a key and a
/// value; a kind byte and a name; an identity.
pub open spec fn payload_bytes(c: ContentView) -> Seq<u8> {
    match c {
        ContentView::Value(v) => any_bytes(v),
        ContentView::Char(ch) => varint_bytes(ch as nat),
        ContentView::Entry(k, v) => str_bytes(k) + any_bytes(v),
        ContentView::Marker(kind, name) => seq![kind_byte(kind)] + str_bytes(name),
        ContentView::Delete(id) => id_bytes(id),
    }
}

/// The payload of the given tag at `pos`.
pub open spec fn payload_at(b: Seq<u8>, pos: int, tag: u8) -> Result<
    (ContentView, int),
    CodecError,
> {
    if tag == CONTENT_VALUE {
        match any_at(b, pos) {
            Err(e) => Err(e),
            Ok((v, next)) => Ok((ContentView::Value(v), next)),
        }
    } else if tag == CONTENT_CHAR {
        match varint_at(b, pos, 0) {
            None => Err(CodecError::Truncated),
            Some((u, next)) => if is_char(u) {
                Ok((ContentView::Char(u as char), next))
            } else {
                Err(CodecError::InvalidUtf8)
            },
        }
    } else if tag == CONTENT_ENTRY {
        match str_at(b, pos) {
            Err(e) => Err(e),
            Ok((k, mid)) => match any_at(b, mid) {
                Err(e) => Err(e),
                Ok((v, next)) => Ok((ContentView::Entry(k, v), next)),
            },
        }
    } else if tag == CONTENT_MARKER {
        if pos < 0 || pos >= b.len() {
            Err(CodecError::Truncated)
        } else if b[pos] > 2 {
            Err(CodecError::InvalidTag)
        } else {
            let kind = if b[pos] == 0 {
                TypeKind::Array
            } else if b[pos] == 1 {
                TypeKind::Mapping
            } else {
                TypeKind::Text
            };
            match str_at(b, pos + 1) {
                Err(e) => Err(e),
                Ok((name, next)) => Ok((ContentView::Marker(kind, name), next)),
            }
        }
    } else if tag == CONTENT_DELETE {
        match id_at(b, pos) {
            Err(e) => Err(e),
            Ok((id, next)) => Ok((ContentView::Delete(id), next)),
        }
    } else {
        Err(CodecError::InvalidTag)
    }
}

/// `n` payloads from `pos` on, as items from `id` on appended to `acc`;
/// with them the position and the clock behind the last.
pub open spec fn span_at(
    b: Seq<u8>,
    pos: int,
    tag: u8,
    id: BlockId,
    left: Option<BlockId>,
    right: Option<BlockId>,
    n: nat,
    acc: Seq<ItemView>,
) -> Result<(Seq<ItemView>, int, u64), CodecError>
    decreases b.len() - pos, n,
{
    if n == 0 {
        Ok((acc, pos, id.clock))
    } else {
        match payload_at(b, pos, tag) {
            Err(e) => Err(e),
            Ok((content, next)) => {
                if next <= pos || next > b.len() {
                    Err(CodecError::Truncated)
                } else {
                    span_at(
                        b,
                        next,
                        tag,
                        BlockId { replica: id.replica, clock: clock_after(id.clock) },
                        Some(id),
                        right,
                        (n - 1) as nat,
                        acc.push(ItemView { id, left, right, content }),
                    )
                }
            },
        }
    }
}

/// The wire item at `pos`, its items from `id` on appended to `acc`.
#[verifier::opaque]
pub open spec fn wire_item_at(b: Seq<u8>, pos: int, id: BlockId, acc: Seq<ItemView>) -> Result<
    (Seq<ItemView>, int, u64),
    CodecError,
> {
    if pos < 0 || pos >= b.len() {
        Err(CodecError::Truncated)
    } else if b[pos] < CONTENT_VALUE || b[pos] > CONTENT_DELETE {
        Err(CodecError::InvalidTag)
    } else {
        match origin_at(b, pos + 1) {
            Err(e) => Err(e),
            Ok((left, p1)) => match origin_at(b, p1) {
                Err(e) => Err(e),
                Ok((right, p2)) => match varint_at(b, p2, 0) {
                    None => Err(CodecError::Truncated),
                    Some((n, p3)) => span_at(b, p3, b[pos], id, left, right, n, acc),
                },
            },
        }
    }
}

/// `count` wire items from `pos` on.
pub open spec fn run_at(b: Seq<u8>, pos: int, id: BlockId, count: nat, acc: Seq<ItemView>)
    -> Result<(Seq<ItemView>, int), CodecError>
    decreases b.len() - pos, count,
{
    if count == 0 {
        Ok((acc, pos))
    } else {
        match wire_item_at(b, pos, id, acc) {
            Err(e) => Err(e),
            Ok((items, next, clock)) => {
                if next <= pos || next > b.len() {
                    Err(CodecError::Truncated)
                } else {
                    run_at(
                        b,
                        next,
                        BlockId { replica: id.replica, clock },
                        (count - 1) as nat,
                        items,
                    )
                }
            },
        }
    }
}

/// The runs from `pos` to the end of the buffer.
pub open spec fn runs_at(b: Seq<u8>, pos: int, acc: Seq<ItemView>) -> Result<
    Seq<ItemView>,
    CodecError,
>
    decreases b.len() - pos,
{
    if pos < 0 || pos >= b.len() {
        Ok(acc)
    } else {
        match id_at(b, pos) {
            Err(e) => Err(e),
            Ok((id, p1)) => match varint_at(b, p1, 0) {
                None => Err(CodecError::Truncated),
                Some((count, p2)) => match run_at(b, p2, id, count, acc) {
                    Err(e) => Err(e),
                    Ok((items, next)) => {
                        if next <= pos || next > b.len() {
                            Err(CodecError::Truncated)
                        } else {
                            runs_at(b, next, items)
                        }
                    },
                },
            },
        }
    }
}

/// The items of an update buffer.
pub open spec fn update_items(b: Seq<u8>) -> Result<Seq<ItemView>, CodecError> {
    runs_at(b, 0, Seq::empty())
}

/// Every length in the content fits the 64 bits of its prefix.
pub open spec fn content_fits(c: ContentView) -> bool {
    match c {
        ContentView::Value(v) => fits(v),
        ContentView::Char(_) => true,
        ContentView::Entry(k, v) => encode_utf8(k).len() <= u64::MAX && fits(v),
        ContentView::Marker(_, name) => encode_utf8(name).len() <= u64::MAX,
        ContentView::Delete(_) => true,
    }
}

/// In the content the keys of every record stand in their order, and lists
/// and records are nested no deeper than the codec decodes.
pub open spec fn content_wf(c: ContentView) -> bool {
    match c {
        ContentView::Value(v) => keys_sorted(v) && within_depth(v, MAX_DEPTH as nat),
        ContentView::Entry(_, v) => keys_sorted(v) && within_depth(v, MAX_DEPTH as nat),
        _ => true,
    }
}

/// Every content of the items is of that form.
pub open spec fn items_wf(items: Seq<ItemView>) -> bool {
    forall|k: int| 0 <= k < items.len() ==> content_wf((#[trigger] items[k]).content)
}

/// `b` is the identity that follows `a` on a replica's clock.
pub open spec fn follows(a: BlockId, b: BlockId) -> bool {
    b.replica == a.replica && a.clock < u64::MAX && b.clock == a.clock + 1
}

/// The end of the run that holds index `j - 1`: the first index from `j`
/// on whose item does not follow the one before it.
pub open spec fn run_end(items: Seq<ItemView>, j: int) -> int
    decreases items.len() - j,
{
    if j <= 0 || j >= items.len() {
        j
    } else if follows(items[j - 1].id, items[j].id) {
        run_end(items, j + 1)
    } else {
        j
    }
}

/// `b` can share a wire item with `a` before it: it follows `a` on the
/// clock, has `a` as its left origin, and has the right origin and the kind
/// of content of `a`.
pub open spec fn chains(a: ItemView, b: ItemView) -> bool {
    &&& follows(a.id, b.id)
    &&& b.left == Some(a.id)
    &&& b.right == a.right
    &&& content_tag(b.content) == content_tag(a.content)
}

/// The end of the span that holds index `e - 1`, within a run that ends at
/// `j`: the first index from `e` on, up to `j`, whose item does not chain to
/// the one before it.
pub open spec fn span_stop(items: Seq<ItemView>, e: int, j: int) -> int
    decreases j - e,
{
    if e <= 0 || e >= j || e >= items.len() {
        e
    } else if chains(items[e - 1], items[e]) {
        span_stop(items, e + 1, j)
    } else {
        e
    }
}

/// The payloads of the items from `i` up to `e`, one after another.
pub open spec fn payloads_bytes(items: Seq<ItemView>, i: int, e: int) -> Seq<u8>
    decreases e - i,
{
    if i >= e || i < 0 || i >= items.len() {
        Seq::empty()
    } else {
        payload_bytes(items[i].content) + payloads_bytes(items, i + 1, e)
    }
}

/// The items from `i` up to `e` as one wire item: the tag and the origins
/// of the first, the number of items, and their payloads.
pub open spec fn span_bytes(items: Seq<ItemView>, i: int, e: int) -> Seq<u8> {
    seq![content_tag(items[i].content)] + origin_bytes(items[i].left) + origin_bytes(
        items[i].right,
    ) + varint_bytes((e - i) as nat) + payloads_bytes(items, i, e)
}

/// The items from `i` up to `j` as wire items, each as long as its items
/// chain.
pub open spec fn spans_bytes(items: Seq<ItemView>, i: int, j: int) -> Seq<u8>
    decreases j - i,
{
    if i >= j || i < 0 {
        Seq::empty()
    } else {
        let e = span_stop(items, i + 1, j);
        if e <= i || e > j {
            Seq::empty()
        } else {
            span_bytes(items, i, e) + spans_bytes(items, e, j)
        }
    }
}

/// The number of wire items that the items from `i` up to `j` make.
pub open spec fn span_count(items: Seq<ItemView>, i: int, j: int) -> nat
    decreases j - i,
{
    if i >= j || i < 0 {
        0
    } else {
        let e = span_stop(items, i + 1, j);
        if e <= i || e > j {
            0
        } else {
            1 + span_count(items, e, j)
        }
    }
}

/// The update that carries the items from `i` on: run by run, a run for
/// as long as the items follow one another on one replica's clock.
pub open spec fn update_bytes(items: Seq<ItemView>, i: int) -> Seq<u8>
    decreases items.len() - i,
{
    if i < 0 || i >= items.len() {
        Seq::empty()
    } else {
        let j = run_end(items, i + 1);
        if j <= i || j > items.len() {
            Seq::empty()
        } else {
            id_bytes(items[i].id) + varint_bytes(span_count(items, i, j)) + spans_bytes(
                items,
                i,
                j,
            ) + update_bytes(items, j)
        }
    }
}

/// A run ends behind where it is entered, within the items.
pub proof fn lemma_run_end(items: Seq<ItemView>, j: int)
    requires
        0 < j <= items.len(),
    ensures
        j <= run_end(items, j) <= items.len(),
    decreases items.len() - j,
{
    if j < items.len() && follows(items[j - 1].id, items[j].id) {
        lemma_run_end(items, j + 1);
    }
}

/// A span ends behind where it is entered, within its run.
pub proof fn lemma_span_stop(items: Seq<ItemView>, e: int, j: int)
    requires
        0 < e <= j <= items.len(),
    ensures
        e <= span_stop(items, e, j) <= j,
    decreases j - e,
{
    if e < j && chains(items[e - 1], items[e]) {
        lemma_span_stop(items, e + 1, j);
    }
}

proof fn lemma_span_count(items: Seq<ItemView>, i: int, j: int)
    requires
        0 <= i <= j <= items.len(),
    ensures
        span_count(items, i, j) <= j - i,
    decreases j - i,
{
    if i < j {
        lemma_span_stop(items, i + 1, j);
        lemma_span_count(items, span_stop(items, i + 1, j), j);
    }
}

/// `char::from_u32`: the character with this scalar value, where the value
/// is one: up to 0x10FFFF and no surrogate.
#[verifier::external_body]
fn char_from_u32(u: u32) -> (r: Option<char>)
    ensures
        r is Some <==> is_char(u as nat),
        r is Some ==> r->Some_0 as u32 == u,
{
    char::from_u32(u)
}

fn write_id(id: BlockId, out: &mut Vec<u8>)
    ensures
        final(out)@ == old(out)@ + id_bytes(id),
{
    write_varint(id.replica, out);
    write_varint(id.clock, out);
    assert(out@ =~= old(out)@ + id_bytes(id));
}

fn write_origin(o: &Option<BlockId>, out: &mut Vec<u8>)
    ensures
        final(out)@ == old(out)@ + origin_bytes(*o),
{
    match o {
        None => {
            out.push(0);
            assert(out@ =~= old(out)@ + origin_bytes(*o));
        },
        Some(id) => {
            out.push(1);
            write_id(*id, out);
            assert(out@ =~= old(out)@ + origin_bytes(*o));
        },
    }
}

fn write_payload(c: &Content, out: &mut Vec<u8>)
    ensures
        final(out)@ == old(out)@ + payload_bytes(c@),
        content_fits(c@),
{
    match c {
        Content::Value(v) => {
            v.write(out);
        },
        Content::Char(ch) => {
            write_varint(*ch as u64, out);
        },
        Content::Entry(k, v) => {
            write_str(k.as_str(), out);
            v.write(out);
            assert(out@ =~= old(out)@ + payload_bytes(c@));
        },
        Content::Marker(kind, name) => {
            let byte: u8 = match kind {
                TypeKind::Array => 0,
                TypeKind::Mapping => 1,
                TypeKind::Text => 2,
            };
            out.push(byte);
            write_str(name.as_str(), out);
            assert(out@ =~= old(out)@ + payload_bytes(c@));
        },
        Content::Delete(id) => {
            write_id(*id, out);
        },
    }
}

fn tag_of(c: &Content) -> (r: u8)
    ensures
        r == content_tag(c@),
{
    match c {
        Content::Value(_) => CONTENT_VALUE,
        Content::Char(_) => CONTENT_CHAR,
        Content::Entry(_, _) => CONTENT_ENTRY,
        Content::Marker(_, _) => CONTENT_MARKER,
        Content::Delete(_) => CONTENT_DELETE,
    }
}

fn follows_on(a: BlockId, b: BlockId) -> (r: bool)
    ensures
        r == follows(a, b),
{
    b.replica == a.replica && a.clock < u64::MAX && b.clock == a.clock + 1
}

fn chains_on(a: &Item, b: &Item) -> (r: bool)
    ensures
        r == chains(a@, b@),
{
    if !follows_on(a.id, b.id) {
        return false;
    }
    let left = match b.left {
        Some(l) => l.replica == a.id.replica && l.clock == a.id.clock,
        None => false,
    };
    let right = match (a.right, b.right) {
        (None, None) => true,
        (Some(x), Some(y)) => x.replica == y.replica && x.clock == y.clock,
        _ => false,
    };
    left && right && tag_of(&a.content) == tag_of(&b.content)
}

/// The end of the span that starts at `s`, within a run that ends at `j`.
fn span_stop_at(items: &Vec<Item>, s: usize, j: usize) -> (e: usize)
    requires
        s < j <= items.len(),
    ensures
        e == span_stop(items_view(items@), s + 1, j as int),
        s < e <= j,
{
    let mut e: usize = s + 1;
    while e < j && chains_on(&items[e - 1], &items[e])
        invariant
            s < e <= j <= items.len(),
            span_stop(items_view(items@), s + 1, j as int) == span_stop(
                items_view(items@),
                e as int,
                j as int,
            ),
        decreases j - e,
    {
        e += 1;
    }
    e
}

/// Appends the items from `s` up to `e` as one wire item.
fn write_span(items: &Vec<Item>, s: usize, e: usize, out: &mut Vec<u8>)
    requires
        s < e <= items.len(),
    ensures
        final(out)@ == old(out)@ + span_bytes(items_view(items@), s as int, e as int),
        forall|m: int| s <= m < e ==> content_fits((#[trigger] items_view(items@)[m]).content),
{
    let ghost v = items_view(items@);
    out.push(tag_of(&items[s].content));
    write_origin(&items[s].left, out);
    write_origin(&items[s].right, out);
    write_varint((e - s) as u64, out);
    let ghost head = out@;
    assert(head =~= old(out)@ + (seq![content_tag(v[s as int].content)] + origin_bytes(
        v[s as int].left,
    ) + origin_bytes(v[s as int].right) + varint_bytes((e - s) as nat)));
    let mut k: usize = s;
    while k < e
        invariant
            s <= k <= e <= items.len(),
            v == items_view(items@),
            out@ + payloads_bytes(v, k as int, e as int) == head + payloads_bytes(
                v,
                s as int,
                e as int,
            ),
            forall|m: int| s <= m < k ==> content_fits((#[trigger] v[m]).content),
        decreases e - k,
    {
        let ghost prev = out@;
        write_payload(&items[k].content, out);
        assert(out@ + payloads_bytes(v, k + 1, e as int) =~= prev + (payload_bytes(
            v[k as int].content,
        ) + payloads_bytes(v, k + 1, e as int)));
        k += 1;
    }
    assert(out@ =~= old(out)@ + span_bytes(v, s as int, e as int));
}

/// The update buffer that carries the items, in their order. Decoding it
/// gives the items back.
pub fn encode_update(items: &Vec<Item>) -> (r: Vec<u8>)
    ensures
        r@ == update_bytes(items_view(items@), 0),
        items_wf(items_view(items@)) ==> update_items(r@) == Ok::<Seq<ItemView>, CodecError>(
            items_view(items@),
        ),
{
    let ghost v = items_view(items@);
    let mut out: Vec<u8> = Vec::new();
    let mut i: usize = 0;
    assert(out@ + update_bytes(v, 0) =~= update_bytes(v, 0));
    while i < items.len()
        invariant
            i <= items.len(),
            v == items_view(items@),
            out@ + update_bytes(v, i as int) == update_bytes(v, 0),
            forall|m: int| 0 <= m < i ==> content_fits((#[trigger] v[m]).content),
        decreases items.len() - i,
    {
        let mut j: usize = i + 1;
        while j < items.len() && follows_on(items[j - 1].id, items[j].id)
            invariant
                i < j <= items.len(),
                v == items_view(items@),
                run_end(v, i + 1) == run_end(v, j as int),
            decreases items.len() - j,
        {
            j += 1;
        }
        let mut count: u64 = 0;
        let mut s: usize = i;
        while s < j
            invariant
                i <= s <= j <= items.len(),
                v == items_view(items@),
                count <= s - i,
                span_count(v, i as int, j as int) == count + span_count(v, s as int, j as int),
            decreases j - s,
        {
            let e = span_stop_at(items, s, j);
            count = count + 1;
            s = e;
        }
        let ghost before = out@;
        write_id(items[i].id, &mut out);
        write_varint(count, &mut out);
        let ghost head = out@;
        assert(head + spans_bytes(v, i as int, j as int) =~= before + (id_bytes(v[i as int].id)
            + varint_bytes(span_count(v, i as int, j as int)) + spans_bytes(
            v,
            i as int,
            j as int,
        )));
        let mut s: usize = i;
        while s < j
            invariant
                i <= s <= j <= items.len(),
                v == items_view(items@),
                out@ + spans_bytes(v, s as int, j as int) == head + spans_bytes(
                    v,
                    i as int,
                    j as int,
                ),
                forall|m: int| 0 <= m < s ==> content_fits((#[trigger] v[m]).content),
            decreases j - s,
        {
            let e = span_stop_at(items, s, j);
            let ghost prev = out@;
            write_span(items, s, e, &mut out);
            assert(out@ + spans_bytes(v, e as int, j as int) =~= prev + (span_bytes(
                v,
                s as int,
                e as int,
            ) + spans_bytes(v, e as int, j as int)));
            s = e;
        }
        assert(out@ + update_bytes(v, j as int) =~= before + (id_bytes(v[i as int].id)
            + varint_bytes(span_count(v, i as int, j as int)) + spans_bytes(
            v,
            i as int,
            j as int,
        ) + update_bytes(v, j as int)));
        i = j;
    }
    assert(out@ + update_bytes(v, i as int) =~= out@);
    proof {
        if items_wf(v) {
            lemma_update_round_trip(v);
        }
    }
    out
}

fn read_id(b: &[u8], pos: usize) -> (r: Result<(BlockId, usize), CodecError>)
    ensures
        match r {
            Ok((id, next)) => id_at(b@, pos as int) == Ok::<(BlockId, int), CodecError>(
                (id, next as int),
            ) && pos < next <= b.len(),
            Err(e) => id_at(b@, pos as int) == Err::<(BlockId, int), CodecError>(e),
        },
{
    match read_varint(b, pos) {
        None => Err(CodecError::Truncated),
        Some((replica, mid)) => {
            proof {
                lemma_varint_at_bounds(b@, pos as int, 0);
            }
            match read_varint(b, mid) {
                None => Err(CodecError::Truncated),
                Some((clock, next)) => {
                    proof {
                        lemma_varint_at_bounds(b@, mid as int, 0);
                    }
                    Ok((BlockId { replica, clock }, next))
                },
            }
        },
    }
}

fn read_origin(b: &[u8], pos: usize) -> (r: Result<(Option<BlockId>, usize), CodecError>)
    ensures
        match r {
            Ok((o, next)) => origin_at(b@, pos as int) == Ok::<(Option<BlockId>, int), CodecError>(
                (o, next as int),
            ) && pos < next <= b.len(),
            Err(e) => origin_at(b@, pos as int) == Err::<(Option<BlockId>, int), CodecError>(e),
        },
{
    if pos >= b.len() {
        return Err(CodecError::Truncated);
    }
    if b[pos] == 0 {
        Ok((None, pos + 1))
    } else if b[pos] == 1 {
        match read_id(b, pos + 1) {
            Err(e) => Err(e),
            Ok((id, next)) => Ok((Some(id), next)),
        }
    } else {
        Err(CodecError::InvalidTag)
    }
}

fn read_payload(b: &[u8], pos: usize, tag: u8) -> (r: Result<(Content, usize), CodecError>)
    ensures
        match r {
            Ok((c, next)) => payload_at(b@, pos as int, tag) == Ok::<(ContentView, int), CodecError>(
                (c@, next as int),
            ) && pos < next <= b.len(),
            Err(e) => payload_at(b@, pos as int, tag) == Err::<(ContentView, int), CodecError>(e),
        },
{
    if tag == CONTENT_VALUE {
        match Any::read(b, pos) {
            Err(e) => Err(e),
            Ok((v, next)) => Ok((Content::Value(v), next)),
        }
    } else if tag == CONTENT_CHAR {
        match read_varint(b, pos) {
            None => Err(CodecError::Truncated),
            Some((u, next)) => {
                proof {
                    lemma_varint_at_bounds(b@, pos as int, 0);
                }
                if u > 0x10FFFF {
                    return Err(CodecError::InvalidUtf8);
                }
                match char_from_u32(u as u32) {
                    None => Err(CodecError::InvalidUtf8),
                    Some(c) => {
                        assert(c == (u as nat) as char) by {
                            vstd::utf8::char_u32_cast(c, u as u32);
                        }
                        Ok((Content::Char(c), next))
                    },
                }
            },
        }
    } else if tag == CONTENT_ENTRY {
        match read_str(b, pos) {
            Err(e) => Err(e),
            Ok((k, mid)) => match Any::read(b, mid) {
                Err(e) => Err(e),
                Ok((v, next)) => Ok((Content::Entry(k, v), next)),
            },
        }
    } else if tag == CONTENT_MARKER {
        if pos >= b.len() {
            return Err(CodecError::Truncated);
        }
        let kind = if b[pos] == 0 {
            TypeKind::Array
        } else if b[pos] == 1 {
            TypeKind::Mapping
        } else if b[pos] == 2 {
            TypeKind::Text
        } else {
            return Err(CodecError::InvalidTag);
        };
        match read_str(b, pos + 1) {
            Err(e) => Err(e),
            Ok((name, next)) => Ok((Content::Marker(kind, name), next)),
        }
    } else if tag == CONTENT_DELETE {
        match read_id(b, pos) {
            Err(e) => Err(e),
            Ok((id, next)) => Ok((Content::Delete(id), next)),
        }
    } else {
        Err(CodecError::InvalidTag)
    }
}

fn read_span(
    b: &[u8],
    pos: usize,
    tag: u8,
    id: BlockId,
    left: Option<BlockId>,
    right: Option<BlockId>,
    n: u64,
    items: &mut Vec<Item>,
) -> (r: Result<(usize, u64), CodecError>)
    requires
        pos <= b.len(),
    ensures
        match r {
            Ok((next, clock)) => span_at(
                b@,
                pos as int,
                tag,
                id,
                left,
                right,
                n as nat,
                items_view(old(items)@),
            ) == Ok::<(Seq<ItemView>, int, u64), CodecError>(
                (items_view(final(items)@), next as int, clock),
            ) && pos <= next <= b.len(),
            Err(e) => span_at(
                b@,
                pos as int,
                tag,
                id,
                left,
                right,
                n as nat,
                items_view(old(items)@),
            ) == Err::<(Seq<ItemView>, int, u64), CodecError>(e),
        },
{
    let mut cur: usize = pos;
    let mut rest: u64 = n;
    let mut cur_id = id;
    let mut cur_left = left;
    while rest > 0
        invariant
            pos <= cur <= b.len(),
            span_at(b@, pos as int, tag, id, left, right, n as nat, items_view(old(items)@))
                == span_at(
                b@,
                cur as int,
                tag,
                cur_id,
                cur_left,
                right,
                rest as nat,
                items_view(items@),
            ),
        decreases rest,
    {
        let (content, next) = match read_payload(b, cur, tag) {
            Err(e) => {
                return Err(e);
            },
            Ok(cn) => cn,
        };
        let ghost before = items_view(items@);
        let item = Item { id: cur_id, left: cur_left, right, content };
        items.push(item);
        assert(items_view(items@) =~= before.push(
            ItemView { id: cur_id, left: cur_left, right, content: content@ },
        ));
        cur_left = Some(cur_id);
        cur_id = BlockId {
            replica: cur_id.replica,
            clock: if cur_id.clock == u64::MAX {
                0
            } else {
                cur_id.clock + 1
            },
        };
        cur = next;
        rest = rest - 1;
    }
    Ok((cur, cur_id.clock))
}

fn read_wire_item(b: &[u8], pos: usize, id: BlockId, items: &mut Vec<Item>) -> (r: Result<
    (usize, u64),
    CodecError,
>)
    ensures
        match r {
            Ok((next, clock)) => wire_item_at(b@, pos as int, id, items_view(old(items)@)) == Ok::<
                (Seq<ItemView>, int, u64),
                CodecError,
            >((items_view(final(items)@), next as int, clock)) && pos < next <= b.len(),
            Err(e) => wire_item_at(b@, pos as int, id, items_view(old(items)@)) == Err::<
                (Seq<ItemView>, int, u64),
                CodecError,
            >(e),
        },
{
    proof {
        reveal(wire_item_at);
    }
    if pos >= b.len() {
        return Err(CodecError::Truncated);
    }
    let tag = b[pos];
    if tag < CONTENT_VALUE || tag > CONTENT_DELETE {
        return Err(CodecError::InvalidTag);
    }
    let (left, p1) = match read_origin(b, pos + 1) {
        Err(e) => {
            return Err(e);
        },
        Ok(x) => x,
    };
    let (right, p2) = match read_origin(b, p1) {
        Err(e) => {
            return Err(e);
        },
        Ok(x) => x,
    };
    let (n, p3) = match read_varint(b, p2) {
        None => {
            return Err(CodecError::Truncated);
        },
        Some(x) => x,
    };
    proof {
        lemma_varint_at_bounds(b@, p2 as int, 0);
    }
    read_span(b, p3, tag, id, left, right, n, items)
}

fn read_run(b: &[u8], pos: usize, id: BlockId, count: u64, items: &mut Vec<Item>) -> (r: Result<
    usize,
    CodecError,
>)
    requires
        pos <= b.len(),
    ensures
        match r {
            Ok(next) => run_at(b@, pos as int, id, count as nat, items_view(old(items)@)) == Ok::<
                (Seq<ItemView>, int),
                CodecError,
            >((items_view(final(items)@), next as int)) && pos <= next <= b.len(),
            Err(e) => run_at(b@, pos as int, id, count as nat, items_view(old(items)@)) == Err::<
                (Seq<ItemView>, int),
                CodecError,
            >(e),
        },
{
    let mut cur: usize = pos;
    let mut rest: u64 = count;
    let mut clock: u64 = id.clock;
    while rest > 0
        invariant
            pos <= cur <= b.len(),
            run_at(b@, pos as int, id, count as nat, items_view(old(items)@)) == run_at(
                b@,
                cur as int,
                BlockId { replica: id.replica, clock },
                rest as nat,
                items_view(items@),
            ),
        decreases rest,
    {
        let (next, after) = match read_wire_item(
            b,
            cur,
            BlockId { replica: id.replica, clock },
            items,
        ) {
            Err(e) => {
                return Err(e);
            },
            Ok(x) => x,
        };
        clock = after;
        cur = next;
        rest = rest - 1;
    }
    Ok(cur)
}

/// The items that an update buffer carries.
pub fn decode_update(b: &[u8]) -> (r: Result<Vec<Item>, CodecError>)
    ensures
        match r {
            Ok(items) => update_items(b@) == Ok::<Seq<ItemView>, CodecError>(items_view(items@)),
            Err(e) => update_items(b@) == Err::<Seq<ItemView>, CodecError>(e),
        },
{
    let mut items: Vec<Item> = Vec::new();
    let mut pos: usize = 0;
    assert(items_view(items@) =~= Seq::empty());
    while pos < b.len()
        invariant
            pos <= b.len(),
            update_items(b@) == runs_at(b@, pos as int, items_view(items@)),
        decreases b.len() - pos,
    {
        let (id, p1) = match read_id(b, pos) {
            Err(e) => {
                return Err(e);
            },
            Ok(x) => x,
        };
        let (count, p2) = match read_varint(b, p1) {
            None => {
                return Err(CodecError::Truncated);
            },
            Some(x) => x,
        };
        proof {
            lemma_varint_at_bounds(b@, p1 as int, 0);
        }
        let next = match read_run(b, p2, id, count, &mut items) {
            Err(e) => {
                return Err(e);
            },
            Ok(x) => x,
        };
        pos = next;
    }
    Ok(items)
}

/// What the update codec can carry: values that the value codec can
/// represent, and strings whose length fits its prefix.
pub open spec fn sendable(c: ContentView) -> bool {
    content_fits(c) && content_wf(c)
}

proof fn lemma_id_round_trip(b: Seq<u8>, pos: int, id: BlockId)
    requires
        holds_at(b, pos, id_bytes(id)),
    ensures
        id_at(b, pos) == Ok::<(BlockId, int), CodecError>((id, pos + id_bytes(id).len())),
        id_bytes(id).len() >= 2,
{
    let r = varint_bytes(id.replica as nat);
    let c = varint_bytes(id.clock as nat);
    lemma_cap_zero();
    lemma_holds_split(b, pos, r, c);
    lemma_varint_round_trip(b, pos, id.replica as nat, 0);
    lemma_varint_round_trip(b, pos + r.len(), id.clock as nat, 0);
    lemma_varint_at_bounds(b, pos, 0);
    lemma_varint_at_bounds(b, pos + r.len(), 0);
}

proof fn lemma_origin_round_trip(b: Seq<u8>, pos: int, o: Option<BlockId>)
    requires
        holds_at(b, pos, origin_bytes(o)),
    ensures
        origin_at(b, pos) == Ok::<(Option<BlockId>, int), CodecError>(
            (o, pos + origin_bytes(o).len()),
        ),
        origin_bytes(o).len() >= 1,
{
    let enc = origin_bytes(o);
    assert(b[pos] == b.subrange(pos, pos + enc.len())[0]);
    match o {
        None => {},
        Some(id) => {
            lemma_holds_split(b, pos, seq![1u8], id_bytes(id));
            lemma_id_round_trip(b, pos + 1, id);
        },
    }
}

proof fn lemma_payload_round_trip(b: Seq<u8>, pos: int, c: ContentView)
    requires
        holds_at(b, pos, payload_bytes(c)),
        sendable(c),
    ensures
        payload_at(b, pos, content_tag(c)) == Ok::<(ContentView, int), CodecError>(
            (c, pos + payload_bytes(c).len()),
        ),
        payload_bytes(c).len() >= 1,
{
    lemma_cap_zero();
    match c {
        ContentView::Value(v) => {
            lemma_any_round_trip(b, pos, v);
            lemma_any_bytes_nonempty(v);
        },
        ContentView::Char(ch) => {
            lemma_varint_round_trip(b, pos, ch as nat, 0);
            lemma_varint_at_bounds(b, pos, 0);
            vstd::utf8::char_u32_cast(ch, ch as u32);
            assert((ch as nat) as char == ch);
        },
        ContentView::Entry(k, v) => {
            lemma_holds_split(b, pos, str_bytes(k), any_bytes(v));
            lemma_str_round_trip(b, pos, k);
            lemma_any_round_trip(b, pos + str_bytes(k).len(), v);
            lemma_any_bytes_nonempty(v);
        },
        ContentView::Marker(kind, name) => {
            let enc = payload_bytes(c);
            assert(b[pos] == b.subrange(pos, pos + enc.len())[0]);
            lemma_holds_split(b, pos, seq![kind_byte(kind)], str_bytes(name));
            lemma_str_round_trip(b, pos + 1, name);
        },
        ContentView::Delete(id) => {
            lemma_id_round_trip(b, pos, id);
        },
    }
}

/// Every item of a run but its first follows the one before it.
pub open spec fn is_run(items: Seq<ItemView>, i: int, j: int) -> bool {
    forall|k: int| i < k < j ==> follows(items[k - 1].id, (#[trigger] items[k]).id)
}

/// Every item of a span but its first chains to the one before it.
pub open spec fn is_span(items: Seq<ItemView>, i: int, e: int) -> bool {
    forall|k: int| i < k < e ==> chains(items[k - 1], #[trigger] items[k])
}

proof fn lemma_run_follows(items: Seq<ItemView>, i: int, j: int)
    requires
        0 <= i < j <= items.len(),
        is_run(items, i, j),
    ensures
        is_run(items, i, run_end(items, j)),
    decreases items.len() - j,
{
    if j < items.len() && follows(items[j - 1].id, items[j].id) {
        assert forall|k: int| i < k < j + 1 implies follows(
            items[k - 1].id,
            (#[trigger] items[k]).id,
        ) by {
            if k < j {
                assert(follows(items[k - 1].id, items[k].id));
            }
        }
        lemma_run_follows(items, i, j + 1);
    }
}

proof fn lemma_span_chains(items: Seq<ItemView>, i: int, e: int, j: int)
    requires
        0 <= i < e <= j <= items.len(),
        is_span(items, i, e),
    ensures
        is_span(items, i, span_stop(items, e, j)),
    decreases j - e,
{
    if e < j && chains(items[e - 1], items[e]) {
        assert forall|k: int| i < k < e + 1 implies chains(items[k - 1], #[trigger] items[k]) by {
            if k < e {
                assert(chains(items[k - 1], items[k]));
            }
        }
        lemma_span_chains(items, i, e + 1, j);
    }
}

proof fn lemma_span_same(items: Seq<ItemView>, i: int, k: int, e: int)
    requires
        0 <= i <= k < e <= items.len(),
        is_span(items, i, e),
    ensures
        items[k].right == items[i].right,
        content_tag(items[k].content) == content_tag(items[i].content),
    decreases k - i,
{
    if k > i {
        lemma_span_same(items, i, k - 1, e);
        assert(chains(items[k - 1], items[k]));
    }
}

proof fn lemma_run_replica(items: Seq<ItemView>, i: int, k: int, j: int)
    requires
        0 <= i <= k < j <= items.len(),
        is_run(items, i, j),
    ensures
        items[k].id.replica == items[i].id.replica,
    decreases k - i,
{
    if k > i {
        lemma_run_replica(items, i, k - 1, j);
        assert(follows(items[k - 1].id, items[k].id));
    }
}

#[verifier::rlimit(80)]
proof fn lemma_payloads_round_trip(
    b: Seq<u8>,
    pos: int,
    items: Seq<ItemView>,
    first: int,
    k: int,
    e: int,
    acc: Seq<ItemView>,
)
    requires
        0 <= first <= k < e <= items.len(),
        is_span(items, first, e),
        holds_at(b, pos, payloads_bytes(items, k, e)),
        forall|m: int| 0 <= m < items.len() ==> sendable((#[trigger] items[m]).content),
    ensures
        span_at(
            b,
            pos,
            content_tag(items[first].content),
            items[k].id,
            items[k].left,
            items[first].right,
            (e - k) as nat,
            acc,
        ) == Ok::<(Seq<ItemView>, int, u64), CodecError>(
            (
                acc + items.subrange(k, e),
                pos + payloads_bytes(items, k, e).len(),
                clock_after(items[e - 1].id.clock),
            ),
        ),
        payloads_bytes(items, k, e).len() >= 1,
    decreases e - k,
{
    let tag = content_tag(items[first].content);
    let right = items[first].right;
    let x = items[k];
    let pl = payload_bytes(x.content);
    let rest = payloads_bytes(items, k + 1, e);
    assert(payloads_bytes(items, k, e) == pl + rest);
    lemma_holds_split(b, pos, pl, rest);
    lemma_span_same(items, first, k, e);
    lemma_payload_round_trip(b, pos, x.content);
    let next = pos + pl.len();
    let after = BlockId { replica: x.id.replica, clock: clock_after(x.id.clock) };
    let acc2 = acc.push(x);
    assert((ItemView { id: x.id, left: x.left, right, content: x.content }) == x);
    assert(span_at(b, pos, tag, x.id, x.left, right, (e - k) as nat, acc) == span_at(
        b,
        next,
        tag,
        after,
        Some(x.id),
        right,
        (e - k - 1) as nat,
        acc2,
    ));
    if k + 1 < e {
        assert(chains(items[k], items[k + 1]));
        assert(items[k + 1].id == after);
        lemma_payloads_round_trip(b, next, items, first, k + 1, e, acc2);
        assert(acc2 + items.subrange(k + 1, e) =~= acc + items.subrange(k, e));
    } else {
        assert(acc2 =~= acc + items.subrange(k, e));
        assert(rest =~= Seq::<u8>::empty());
    }
}

#[verifier::rlimit(80)]
proof fn lemma_span_round_trip(
    b: Seq<u8>,
    pos: int,
    items: Seq<ItemView>,
    i: int,
    e: int,
    acc: Seq<ItemView>,
)
    requires
        0 <= i < e <= items.len(),
        e - i <= u64::MAX,
        is_span(items, i, e),
        holds_at(b, pos, span_bytes(items, i, e)),
        forall|m: int| 0 <= m < items.len() ==> sendable((#[trigger] items[m]).content),
    ensures
        wire_item_at(b, pos, items[i].id, acc) == Ok::<(Seq<ItemView>, int, u64), CodecError>(
            (
                acc + items.subrange(i, e),
                pos + span_bytes(items, i, e).len(),
                clock_after(items[e - 1].id.clock),
            ),
        ),
        span_bytes(items, i, e).len() >= 5,
{
    reveal(wire_item_at);
    let x = items[i];
    let tag = seq![content_tag(x.content)];
    let l = origin_bytes(x.left);
    let r = origin_bytes(x.right);
    let n = varint_bytes((e - i) as nat);
    let pl = payloads_bytes(items, i, e);
    let enc = span_bytes(items, i, e);
    assert(enc =~= tag + (l + (r + (n + pl))));
    assert(b[pos] == b.subrange(pos, pos + enc.len())[0]);
    lemma_holds_split(b, pos, tag, l + (r + (n + pl)));
    lemma_holds_split(b, pos + 1, l, r + (n + pl));
    lemma_holds_split(b, pos + 1 + l.len(), r, n + pl);
    lemma_holds_split(b, pos + 1 + l.len() + r.len(), n, pl);
    lemma_origin_round_trip(b, pos + 1, x.left);
    lemma_origin_round_trip(b, pos + 1 + l.len(), x.right);
    lemma_cap_zero();
    lemma_varint_round_trip(b, pos + 1 + l.len() + r.len(), (e - i) as nat, 0);
    lemma_varint_at_bounds(b, pos + 1 + l.len() + r.len(), 0);
    let p3 = pos + 1 + l.len() + r.len() + n.len();
    lemma_payloads_round_trip(b, p3, items, i, i, e, acc);
}

#[verifier::rlimit(80)]
proof fn lemma_spans_round_trip(
    b: Seq<u8>,
    pos: int,
    items: Seq<ItemView>,
    first: int,
    i: int,
    j: int,
    acc: Seq<ItemView>,
)
    requires
        0 <= first <= i <= j <= items.len(),
        is_run(items, first, j),
        holds_at(b, pos, spans_bytes(items, i, j)),
        forall|m: int| 0 <= m < items.len() ==> sendable((#[trigger] items[m]).content),
        j - i <= u64::MAX,
    ensures
        i < j ==> run_at(b, pos, items[i].id, span_count(items, i, j), acc) == Ok::<
            (Seq<ItemView>, int),
            CodecError,
        >((acc + items.subrange(i, j), pos + spans_bytes(items, i, j).len())),
        i < j ==> spans_bytes(items, i, j).len() >= 1,
    decreases j - i,
{
    if i < j {
        let e = span_stop(items, i + 1, j);
        lemma_span_stop(items, i + 1, j);
        assert(is_span(items, i, i + 1));
        lemma_span_chains(items, i, i + 1, j);
        let first_span = span_bytes(items, i, e);
        let rest = spans_bytes(items, e, j);
        assert(spans_bytes(items, i, j) == first_span + rest);
        assert(span_count(items, i, j) == 1 + span_count(items, e, j));
        lemma_holds_split(b, pos, first_span, rest);
        lemma_span_round_trip(b, pos, items, i, e, acc);
        let acc2 = acc + items.subrange(i, e);
        let next = pos + first_span.len();
        let after = BlockId { replica: items[i].id.replica, clock: clock_after(items[e - 1].id.clock) };
        assert(wire_item_at(b, pos, items[i].id, acc) == Ok::<
            (Seq<ItemView>, int, u64),
            CodecError,
        >((acc2, next, after.clock)));
        assert(pos < next <= b.len());
        assert(run_at(b, pos, items[i].id, span_count(items, i, j), acc) == run_at(
            b,
            next,
            after,
            span_count(items, e, j),
            acc2,
        ));
        if e < j {
            assert(follows(items[e - 1].id, items[e].id));
            lemma_run_replica(items, first, i, j);
            lemma_run_replica(items, first, e, j);
            assert(items[e].id == after);
            lemma_spans_round_trip(b, next, items, first, e, j, acc2);
            assert(acc2 + items.subrange(e, j) =~= acc + items.subrange(i, j));
        } else {
            assert(acc2 =~= acc + items.subrange(i, j));
            assert(rest =~= Seq::<u8>::empty());
            assert(span_count(items, e, j) == 0);
            assert(run_at(b, next, after, 0, acc2) == Ok::<(Seq<ItemView>, int), CodecError>(
                (acc2, next),
            ));
        }
    }
}

#[verifier::rlimit(80)]
proof fn lemma_runs_round_trip(b: Seq<u8>, pos: int, items: Seq<ItemView>, i: int, acc: Seq<ItemView>)
    requires
        0 <= i <= items.len(),
        items.len() <= u64::MAX,
        holds_at(b, pos, update_bytes(items, i)),
        pos + update_bytes(items, i).len() == b.len(),
        forall|k: int| 0 <= k < items.len() ==> sendable((#[trigger] items[k]).content),
    ensures
        runs_at(b, pos, acc) == Ok::<Seq<ItemView>, CodecError>(
            acc + items.subrange(i, items.len() as int),
        ),
    decreases items.len() - i,
{
    if i == items.len() {
        assert(acc + items.subrange(i, items.len() as int) =~= acc);
    } else {
        let j = run_end(items, i + 1);
        lemma_run_end(items, i + 1);
        assert(is_run(items, i, i + 1));
        lemma_run_follows(items, i, i + 1);
        lemma_span_count(items, i, j);
        let head = id_bytes(items[i].id);
        let count = varint_bytes(span_count(items, i, j));
        let body = spans_bytes(items, i, j);
        let rest = update_bytes(items, j);
        assert(update_bytes(items, i) =~= head + (count + (body + rest)));
        lemma_holds_split(b, pos, head, count + (body + rest));
        lemma_holds_split(b, pos + head.len(), count, body + rest);
        lemma_holds_split(b, pos + head.len() + count.len(), body, rest);
        lemma_id_round_trip(b, pos, items[i].id);
        lemma_cap_zero();
        lemma_varint_round_trip(b, pos + head.len(), span_count(items, i, j), 0);
        let p2 = pos + head.len() + count.len();
        lemma_spans_round_trip(b, p2, items, i, i, j, acc);
        let acc2 = acc + items.subrange(i, j);
        lemma_runs_round_trip(b, p2 + body.len(), items, j, acc2);
        assert(acc2 + items.subrange(j, items.len() as int) =~= acc + items.subrange(
            i,
            items.len() as int,
        ));
    }
}

/// Decoding the update that carries some items gives the items back, in
/// their order.
pub proof fn lemma_update_round_trip(items: Seq<ItemView>)
    requires
        items.len() <= u64::MAX,
        forall|k: int| 0 <= k < items.len() ==> sendable((#[trigger] items[k]).content),
    ensures
        update_items(update_bytes(items, 0)) == Ok::<Seq<ItemView>, CodecError>(items),
{
    let b = update_bytes(items, 0);
    assert(b.subrange(0, b.len() as int) =~= b);
    lemma_runs_round_trip(b, 0, items, 0, Seq::empty());
    assert(Seq::<ItemView>::empty() + items.subrange(0, items.len() as int) =~= items);
}

} // verus!
