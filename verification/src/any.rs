//! Leaf values of the content model and their binary encoding.

use crate::varint::{
    lemma_cap_zero, lemma_varint_at_bounds, lemma_varint_round_trip, read_varint, varint_at,
    varint_bytes, write_varint,
};
use vstd::prelude::*;
use vstd::slice::slice_subrange;
use vstd::utf8::{decode_utf8, encode_utf8, encode_utf8_decode_utf8, encode_utf8_valid_utf8, valid_utf8};

verus! {

/// Why a buffer could not be decoded.
#[derive(Clone, Copy, Debug, PartialEq, Eq, Structural)]
pub enum CodecError {
    /// The buffer ends in the middle of a value.
    Truncated,
    /// A discriminant byte names no variant.
    InvalidTag,
    /// The bytes of a string are not UTF-8.
    InvalidUtf8,
    /// Lists and records are nested more than [`MAX_DEPTH`] deep.
    TooDeep,
}

/// A tagged leaf value. Floats are held by their IEEE 754 bit patterns. A
/// record is a mapping from keys to values: its fields stand in the order of
/// their keys, each key once (see [`Any::wf`] and [`Any::object`]), so that
/// two records with the same fields are equal whatever order the fields came
/// in.
#[derive(Debug, PartialEq, Eq)]
pub enum Any {
    Undefined,
    Null,
    Integer(i32),
    Float32(u32),
    Float64(u64),
    BigInt64(i64),
    False,
    True,
    String(String),
    Object(Vec<(String, Any)>),
    Array(Vec<Any>),
}

/// The mathematical value of an [`Any`].
pub ghost enum AnyView {
    Undefined,
    Null,
    Integer(i32),
    Float32(u32),
    Float64(u64),
    BigInt64(i64),
    False,
    True,
    String(Seq<char>),
    Object(Seq<(Seq<char>, AnyView)>),
    Array(Seq<AnyView>),
}

/// The views of the first `n` values of a vector.
pub open spec fn items_view_to(items: Vec<Any>, n: nat) -> Seq<AnyView>
    decreases items, n,
{
    if n == 0 || n > items.len() {
        Seq::empty()
    } else {
        items_view_to(items, (n - 1) as nat).push(any_view(items[n - 1]))
    }
}

/// The views of the first `n` fields of a vector.
pub open spec fn fields_view_to(fields: Vec<(String, Any)>, n: nat) -> Seq<(Seq<char>, AnyView)>
    decreases fields, n,
{
    if n == 0 || n > fields.len() {
        Seq::empty()
    } else {
        fields_view_to(fields, (n - 1) as nat).push((fields[n - 1].0@, any_view(fields[n - 1].1)))
    }
}

/// The mathematical value of `a`.
pub open spec fn any_view(a: Any) -> AnyView
    decreases a, 0nat,
{
    match a {
        Any::Undefined => AnyView::Undefined,
        Any::Null => AnyView::Null,
        Any::Integer(n) => AnyView::Integer(n),
        Any::Float32(bits) => AnyView::Float32(bits),
        Any::Float64(bits) => AnyView::Float64(bits),
        Any::BigInt64(n) => AnyView::BigInt64(n),
        Any::False => AnyView::False,
        Any::True => AnyView::True,
        Any::String(s) => AnyView::String(s@),
        Any::Object(fields) => AnyView::Object(fields_view_to(fields, fields.len() as nat)),
        Any::Array(items) => AnyView::Array(items_view_to(items, items.len() as nat)),
    }
}

impl View for Any {
    type V = AnyView;

    open spec fn view(&self) -> AnyView {
        any_view(*self)
    }
}

/// A field list of an object.
pub type FieldsView = Seq<(Seq<char>, AnyView)>;

/// Discriminant bytes. The undefined value.
pub const TAG_UNDEFINED: u8 = 127;

/// The null value.
pub const TAG_NULL: u8 = 126;

/// A 32-bit integer follows, zigzag as a varint.
pub const TAG_INTEGER: u8 = 125;

/// The four bytes of a 32-bit float follow.
pub const TAG_FLOAT32: u8 = 124;

/// The eight bytes of a 64-bit float follow.
pub const TAG_FLOAT64: u8 = 123;

/// A 64-bit integer follows, zigzag as a varint.
pub const TAG_BIGINT64: u8 = 122;

/// The boolean false.
pub const TAG_FALSE: u8 = 121;

/// The boolean true.
pub const TAG_TRUE: u8 = 120;

/// A string follows.
pub const TAG_STRING: u8 = 119;

/// The number of fields follows, then each field: key, value.
pub const TAG_OBJECT: u8 = 118;

/// The number of values follows, then each value.
pub const TAG_ARRAY: u8 = 117;

/// Signed to unsigned, small magnitudes to small numbers.
pub open spec fn zigzag(n: int) -> nat {
    if n >= 0 {
        (2 * n) as nat
    } else {
        (-2 * n - 1) as nat
    }
}

/// The inverse of [`zigzag`].
pub open spec fn unzigzag(u: nat) -> int {
    if u % 2 == 0 {
        (u / 2) as int
    } else {
        -((u / 2) as int) - 1
    }
}

/// Four bytes, most significant first.
pub open spec fn be32_bytes(v: u32) -> Seq<u8> {
    seq![
        (v / 0x100_0000) as u8,
        (v / 0x1_0000 % 256) as u8,
        (v / 0x100 % 256) as u8,
        (v % 256) as u8,
    ]
}

/// The 32 bits that four bytes from `pos` on hold, most significant first.
pub open spec fn be32_at(b: Seq<u8>, pos: int) -> u32 {
    (b[pos] * 0x100_0000 + b[pos + 1] * 0x1_0000 + b[pos + 2] * 0x100 + b[pos + 3]) as u32
}

/// Eight bytes, most significant first.
pub open spec fn be64_bytes(v: u64) -> Seq<u8> {
    be32_bytes((v / 0x1_0000_0000) as u32) + be32_bytes((v % 0x1_0000_0000) as u32)
}

/// The 64 bits that eight bytes from `pos` on hold, most significant first.
pub open spec fn be64_at(b: Seq<u8>, pos: int) -> u64 {
    (be32_at(b, pos) * 0x1_0000_0000 + be32_at(b, pos + 4)) as u64
}

/// A string on the wire: the number of its UTF-8 bytes, then the bytes.
pub open spec fn str_bytes(s: Seq<char>) -> Seq<u8> {
    varint_bytes(encode_utf8(s).len()) + encode_utf8(s)
}

/// The string that starts at `pos`, and the position behind it.
pub open spec fn str_at(b: Seq<u8>, pos: int) -> Result<(Seq<char>, int), CodecError> {
    match varint_at(b, pos, 0) {
        None => Err(CodecError::Truncated),
        Some((n, start)) => {
            if start + n > b.len() {
                Err(CodecError::Truncated)
            } else if !valid_utf8(b.subrange(start, start + n)) {
                Err(CodecError::InvalidUtf8)
            } else {
                Ok((decode_utf8(b.subrange(start, start + n)), start + n))
            }
        },
    }
}

/// The encoding of a value: its discriminant, then its payload.
pub open spec fn any_bytes(v: AnyView) -> Seq<u8>
    decreases v, 0nat,
{
    match v {
        AnyView::Undefined => seq![TAG_UNDEFINED],
        AnyView::Null => seq![TAG_NULL],
        AnyView::Integer(n) => seq![TAG_INTEGER] + varint_bytes(zigzag(n as int)),
        AnyView::Float32(bits) => seq![TAG_FLOAT32] + be32_bytes(bits),
        AnyView::Float64(bits) => seq![TAG_FLOAT64] + be64_bytes(bits),
        AnyView::BigInt64(n) => seq![TAG_BIGINT64] + varint_bytes(zigzag(n as int)),
        AnyView::False => seq![TAG_FALSE],
        AnyView::True => seq![TAG_TRUE],
        AnyView::String(s) => seq![TAG_STRING] + str_bytes(s),
        AnyView::Object(fields) => seq![TAG_OBJECT] + varint_bytes(fields.len()) + fields_bytes(
            fields,
            0,
        ),
        AnyView::Array(items) => seq![TAG_ARRAY] + varint_bytes(items.len()) + items_bytes(
            items,
            0,
        ),
    }
}

/// The encodings of the elements from index `from` on, one after another.
pub open spec fn items_bytes(items: Seq<AnyView>, from: int) -> Seq<u8>
    decreases items, items.len() - from,
{
    if from < 0 || from >= items.len() {
        Seq::empty()
    } else {
        any_bytes(items[from]) + items_bytes(items, from + 1)
    }
}

/// The encodings of the fields from index `from` on: key, then value.
pub open spec fn fields_bytes(fields: FieldsView, from: int) -> Seq<u8>
    decreases fields, fields.len() - from,
{
    if from < 0 || from >= fields.len() {
        Seq::empty()
    } else {
        str_bytes(fields[from].0) + any_bytes(fields[from].1) + fields_bytes(fields, from + 1)
    }
}

/// The first `k` bytes of `a` and `b` are the same.
pub open spec fn bytes_agree(a: Seq<u8>, b: Seq<u8>, k: int) -> bool {
    &&& k <= a.len()
    &&& k <= b.len()
    &&& forall|i: int| 0 <= i < k ==> a[i] == b[i]
}

/// `a` and `b` part at byte `k`, `a` with the smaller byte.
pub open spec fn bytes_part(a: Seq<u8>, b: Seq<u8>, k: int) -> bool {
    &&& 0 <= k < a.len()
    &&& k < b.len()
    &&& bytes_agree(a, b, k)
    &&& a[k] < b[k]
}

/// `a` comes before `b` byte by byte; a string before what it starts.
pub open spec fn bytes_lt(a: Seq<u8>, b: Seq<u8>) -> bool {
    (bytes_agree(a, b, a.len() as int) && a.len() < b.len()) || exists|k: int| bytes_part(a, b, k)
}

/// The order of keys: that of their UTF-8 bytes.
pub open spec fn name_lt(a: Seq<char>, b: Seq<char>) -> bool {
    bytes_lt(encode_utf8(a), encode_utf8(b))
}

/// The order of byte strings is asymmetric.
pub proof fn lemma_bytes_lt_asym(p: Seq<u8>, q: Seq<u8>)
    requires
        bytes_lt(p, q),
    ensures
        !bytes_lt(q, p),
        p != q,
{
    if exists|k: int| bytes_part(p, q, k) {
        let k1 = choose|k: int| bytes_part(p, q, k);
        assert(p[k1] != q[k1]);
        if exists|k: int| bytes_part(q, p, k) {
            let k2 = choose|k: int| bytes_part(q, p, k);
            assert(q[k2] != p[k2]);
        }
    } else if exists|k: int| bytes_part(q, p, k) {
        let k2 = choose|k: int| bytes_part(q, p, k);
        assert(q[k2] != p[k2]);
    }
}

/// The order of byte strings is transitive.
pub proof fn lemma_bytes_lt_trans(p: Seq<u8>, q: Seq<u8>, r: Seq<u8>)
    requires
        bytes_lt(p, q),
        bytes_lt(q, r),
    ensures
        bytes_lt(p, r),
{
    if exists|k: int| bytes_part(p, q, k) {
        let k1 = choose|k: int| bytes_part(p, q, k);
        if exists|k: int| bytes_part(q, r, k) {
            let k2 = choose|k: int| bytes_part(q, r, k);
            if k1 <= k2 {
                assert(bytes_part(p, r, k1));
            } else {
                assert(bytes_part(p, r, k2));
            }
        } else {
            assert(bytes_part(p, r, k1));
        }
    } else {
        if exists|k: int| bytes_part(q, r, k) {
            let k2 = choose|k: int| bytes_part(q, r, k);
            if k2 < p.len() {
                assert(bytes_part(p, r, k2));
            } else {
                assert(bytes_agree(p, r, p.len() as int));
            }
        } else {
            assert(bytes_agree(p, r, p.len() as int));
        }
    }
}

proof fn lemma_bytes_trichotomy_from(p: Seq<u8>, q: Seq<u8>, k: int)
    requires
        0 <= k,
        bytes_agree(p, q, k),
    ensures
        p == q || bytes_lt(p, q) || bytes_lt(q, p),
    decreases p.len() - k,
{
    if k == p.len() {
        if k == q.len() {
            assert(p =~= q);
        } else {
            assert(bytes_agree(p, q, p.len() as int));
        }
    } else if k == q.len() {
        assert(bytes_agree(q, p, q.len() as int));
    } else if p[k] == q[k] {
        lemma_bytes_trichotomy_from(p, q, k + 1);
    } else if p[k] < q[k] {
        assert(bytes_part(p, q, k));
    } else {
        assert(bytes_part(q, p, k));
    }
}

/// Of two different keys one comes before the other, and not the other
/// before it.
pub proof fn lemma_name_order(a: Seq<char>, b: Seq<char>)
    ensures
        a == b || name_lt(a, b) || name_lt(b, a),
        name_lt(a, b) ==> !name_lt(b, a) && a != b,
{
    lemma_bytes_trichotomy_from(encode_utf8(a), encode_utf8(b), 0);
    if encode_utf8(a) == encode_utf8(b) {
        encode_utf8_decode_utf8(a);
        encode_utf8_decode_utf8(b);
    }
    if name_lt(a, b) {
        lemma_bytes_lt_asym(encode_utf8(a), encode_utf8(b));
    }
}

/// The order of keys is transitive.
pub proof fn lemma_name_trans(a: Seq<char>, b: Seq<char>, c: Seq<char>)
    requires
        name_lt(a, b),
        name_lt(b, c),
    ensures
        name_lt(a, c),
{
    lemma_bytes_lt_trans(encode_utf8(a), encode_utf8(b), encode_utf8(c));
}

/// The keys stand in their order, each once.
pub open spec fn sorted_keys(fields: FieldsView) -> bool {
    forall|i: int, j: int|
        0 <= i < j < fields.len() ==> name_lt((#[trigger] fields[i]).0, (#[trigger] fields[j]).0)
}

/// The field stands in the list.
pub open spec fn has_field(fields: FieldsView, f: (Seq<char>, AnyView)) -> bool {
    exists|i: int| 0 <= i < fields.len() && #[trigger] fields[i] == f
}

/// Sets key `k` to `v`: in place of the value that the key has, or at the
/// key's place in the order.
pub open spec fn put_field(fields: FieldsView, k: Seq<char>, v: AnyView) -> FieldsView
    decreases fields.len(),
{
    if fields.len() == 0 {
        seq![(k, v)]
    } else if fields.last().0 == k {
        fields.drop_last().push((k, v))
    } else if name_lt(fields.last().0, k) {
        fields.push((k, v))
    } else {
        put_field(fields.drop_last(), k, v).push(fields.last())
    }
}

/// The fields put one after another into an empty list, the first `n` of
/// them: a record in the order of its keys, whatever the order of the fields.
pub open spec fn ordered(fields: FieldsView, n: int) -> FieldsView
    decreases n,
{
    if n <= 0 || n > fields.len() {
        Seq::empty()
    } else {
        put_field(ordered(fields, n - 1), fields[n - 1].0, fields[n - 1].1)
    }
}

/// Where `put_field` puts the field, told by the index `i` behind which
/// every key comes after `k`.
pub proof fn lemma_put_at(fields: FieldsView, k: Seq<char>, v: AnyView, i: int)
    requires
        0 <= i <= fields.len(),
        forall|j: int| i <= j < fields.len() ==> name_lt(k, (#[trigger] fields[j]).0),
        i > 0 ==> !name_lt(k, fields[i - 1].0),
    ensures
        put_field(fields, k, v) == if i > 0 && fields[i - 1].0 == k {
            fields.update(i - 1, (k, v))
        } else {
            fields.insert(i, (k, v))
        },
    decreases fields.len() - i,
{
    if fields.len() == 0 {
        assert(seq![(k, v)] =~= fields.insert(0, (k, v)));
    } else {
        let last = fields.last();
        lemma_name_order(k, last.0);
        if i == fields.len() {
            if last.0 == k {
                assert(fields.drop_last().push((k, v)) =~= fields.update(i - 1, (k, v)));
            } else {
                assert(fields.push((k, v)) =~= fields.insert(i, (k, v)));
            }
        } else {
            assert(name_lt(k, fields[fields.len() - 1].0));
            let front = fields.drop_last();
            assert forall|j: int| i <= j < front.len() implies name_lt(k, (#[trigger] front[j]).0) by {
                assert(front[j] == fields[j]);
            }
            if i > 0 {
                assert(front[i - 1] == fields[i - 1]);
            }
            lemma_put_at(front, k, v, i);
            if i > 0 && fields[i - 1].0 == k {
                assert(front.update(i - 1, (k, v)).push(last) =~= fields.update(i - 1, (k, v)));
            } else {
                assert(front.insert(i, (k, v)).push(last) =~= fields.insert(i, (k, v)));
            }
        }
    }
}

/// What `put_field` leaves: keys in their order where they were so; the
/// new field, and every old field with another key, and nothing else.
pub proof fn lemma_put_field(fields: FieldsView, k: Seq<char>, v: AnyView)
    ensures
        has_field(put_field(fields, k, v), (k, v)),
        forall|i: int|
            0 <= i < fields.len() && (#[trigger] fields[i]).0 != k ==> has_field(
                put_field(fields, k, v),
                fields[i],
            ),
        forall|i: int|
            0 <= i < put_field(fields, k, v).len() ==> (#[trigger] put_field(fields, k, v)[i]) == (
                k,
                v,
            ) || has_field(fields, put_field(fields, k, v)[i]),
        sorted_keys(fields) ==> sorted_keys(put_field(fields, k, v)),
    decreases fields.len(),
{
    let r = put_field(fields, k, v);
    if fields.len() == 0 {
        assert(r[0] == (k, v));
    } else {
        let last = fields.last();
        let front = fields.drop_last();
        let n = fields.len() - 1;
        lemma_name_order(k, last.0);
        if last.0 == k {
            assert(r[n] == (k, v));
            assert forall|i: int| 0 <= i < fields.len() && (#[trigger] fields[i]).0
                != k implies has_field(r, fields[i]) by {
                assert(r[i] == fields[i]);
            }
            assert forall|i: int| 0 <= i < r.len() implies (#[trigger] r[i]) == (k, v)
                || has_field(fields, r[i]) by {
                if i < n {
                    assert(fields[i] == r[i]);
                }
            }
            if sorted_keys(fields) {
                assert forall|i: int, j: int| 0 <= i < j < r.len() implies name_lt(
                    (#[trigger] r[i]).0,
                    (#[trigger] r[j]).0,
                ) by {
                    assert(name_lt(fields[i].0, fields[j].0));
                }
            }
        } else if name_lt(last.0, k) {
            assert(r[n + 1] == (k, v));
            assert forall|i: int| 0 <= i < fields.len() && (#[trigger] fields[i]).0
                != k implies has_field(r, fields[i]) by {
                assert(r[i] == fields[i]);
            }
            assert forall|i: int| 0 <= i < r.len() implies (#[trigger] r[i]) == (k, v)
                || has_field(fields, r[i]) by {
                if i <= n {
                    assert(fields[i] == r[i]);
                }
            }
            if sorted_keys(fields) {
                assert forall|i: int, j: int| 0 <= i < j < r.len() implies name_lt(
                    (#[trigger] r[i]).0,
                    (#[trigger] r[j]).0,
                ) by {
                    if j <= n {
                        assert(name_lt(fields[i].0, fields[j].0));
                    } else if i < n {
                        assert(name_lt(fields[i].0, fields[n].0));
                        lemma_name_trans(fields[i].0, last.0, k);
                    }
                }
            }
        } else {
            lemma_put_field(front, k, v);
            let inner = put_field(front, k, v);
            assert(r == inner.push(last));
            let at = choose|i: int| 0 <= i < inner.len() && #[trigger] inner[i] == (k, v);
            assert(r[at] == (k, v));
            assert forall|i: int| 0 <= i < fields.len() && (#[trigger] fields[i]).0
                != k implies has_field(r, fields[i]) by {
                if i < n {
                    assert(front[i] == fields[i]);
                    assert(has_field(inner, front[i]));
                    let j = choose|j: int| 0 <= j < inner.len() && #[trigger] inner[j] == front[i];
                    assert(r[j] == fields[i]);
                } else {
                    assert(r[inner.len() as int] == last);
                }
            }
            assert forall|i: int| 0 <= i < r.len() implies (#[trigger] r[i]) == (k, v)
                || has_field(fields, r[i]) by {
                if i < inner.len() {
                    assert(r[i] == inner[i]);
                    if inner[i] != (k, v) {
                        let j = choose|j: int| 0 <= j < front.len() && #[trigger] front[j] == inner[i];
                        assert(fields[j] == r[i]);
                    }
                } else {
                    assert(fields[n] == r[i]);
                }
            }
            if sorted_keys(fields) {
                assert forall|i: int, j: int| 0 <= i < j < front.len() implies name_lt(
                    (#[trigger] front[i]).0,
                    (#[trigger] front[j]).0,
                ) by {
                    assert(name_lt(fields[i].0, fields[j].0));
                }
                assert forall|i: int, j: int| 0 <= i < j < r.len() implies name_lt(
                    (#[trigger] r[i]).0,
                    (#[trigger] r[j]).0,
                ) by {
                    if j < inner.len() {
                        assert(name_lt(inner[i].0, inner[j].0));
                    } else {
                        assert(r[i] == inner[i]);
                        if inner[i] != (k, v) {
                            let m = choose|m: int|
                                0 <= m < front.len() && #[trigger] front[m] == inner[i];
                            assert(name_lt(fields[m].0, fields[n].0));
                        }
                    }
                }
            }
        }
    }
}

/// Where the field stands in the list.
pub open spec fn field_place(fields: FieldsView, f: (Seq<char>, AnyView)) -> int {
    choose|i: int| 0 <= i < fields.len() && #[trigger] fields[i] == f
}

proof fn lemma_field_place_rises(a: FieldsView, b: FieldsView, i: int)
    requires
        sorted_keys(a),
        sorted_keys(b),
        forall|m: int| 0 <= m < a.len() ==> has_field(b, #[trigger] a[m]),
        0 <= i < a.len(),
    ensures
        i <= field_place(b, a[i]) < b.len(),
        b[field_place(b, a[i])] == a[i],
    decreases i,
{
    assert(has_field(b, a[i]));
    if i > 0 {
        lemma_field_place_rises(a, b, i - 1);
        let p = field_place(b, a[i - 1]);
        let q = field_place(b, a[i]);
        assert(name_lt(a[i - 1].0, a[i].0));
        lemma_name_order(a[i - 1].0, a[i].0);
        if q < p {
            assert(name_lt(b[q].0, b[p].0));
        }
    }
}

/// Two records whose keys stand in their order and which hold the same
/// fields are the same record: among such records equality does not depend on
/// the order in which the fields came.
pub proof fn lemma_sorted_same(a: FieldsView, b: FieldsView)
    requires
        sorted_keys(a),
        sorted_keys(b),
        forall|m: int| 0 <= m < a.len() ==> has_field(b, #[trigger] a[m]),
        forall|m: int| 0 <= m < b.len() ==> has_field(a, #[trigger] b[m]),
    ensures
        a == b,
{
    if a.len() > 0 {
        lemma_field_place_rises(a, b, a.len() - 1);
    }
    if b.len() > 0 {
        lemma_field_place_rises(b, a, b.len() - 1);
    }
    assert(a.len() == b.len());
    assert forall|i: int| 0 <= i < a.len() implies a[i] == b[i] by {
        lemma_field_place_rises(a, b, i);
        let p = field_place(b, a[i]);
        lemma_field_place_rises(b, a, p);
        let q = field_place(a, b[p]);
        if q < i {
            assert(name_lt(a[q].0, a[i].0));
            lemma_name_order(a[q].0, a[i].0);
        } else if i < q {
            assert(name_lt(a[i].0, a[q].0));
            lemma_name_order(a[i].0, a[q].0);
        }
    }
    assert(a =~= b);
}

/// Putting fields one after another leaves the keys in their order.
pub proof fn lemma_ordered_sorted(fields: FieldsView, n: int)
    ensures
        sorted_keys(ordered(fields, n)),
    decreases n,
{
    if 0 < n <= fields.len() {
        lemma_ordered_sorted(fields, n - 1);
        lemma_put_field(ordered(fields, n - 1), fields[n - 1].0, fields[n - 1].1);
    }
}

/// The value that starts at `pos`, and the position behind it. The fields
/// of an object come to stand in the order of their keys; where the wire
/// repeats a key, the last value wins.
pub open spec fn any_in(b: Seq<u8>, pos: int, d: nat) -> Result<(AnyView, int), CodecError>
    decreases b.len() - pos, 0nat,
{
    if pos < 0 || pos >= b.len() {
        Err(CodecError::Truncated)
    } else if b[pos] == TAG_UNDEFINED {
        Ok((AnyView::Undefined, pos + 1))
    } else if b[pos] == TAG_NULL {
        Ok((AnyView::Null, pos + 1))
    } else if b[pos] == TAG_INTEGER {
        match varint_at(b, pos + 1, 0) {
            None => Err(CodecError::Truncated),
            Some((u, next)) => Ok(
                (AnyView::Integer(unzigzag(u % 0x1_0000_0000) as i32), next),
            ),
        }
    } else if b[pos] == TAG_FLOAT32 {
        if pos + 5 > b.len() {
            Err(CodecError::Truncated)
        } else {
            Ok((AnyView::Float32(be32_at(b, pos + 1)), pos + 5))
        }
    } else if b[pos] == TAG_FLOAT64 {
        if pos + 9 > b.len() {
            Err(CodecError::Truncated)
        } else {
            Ok((AnyView::Float64(be64_at(b, pos + 1)), pos + 9))
        }
    } else if b[pos] == TAG_BIGINT64 {
        match varint_at(b, pos + 1, 0) {
            None => Err(CodecError::Truncated),
            Some((u, next)) => Ok((AnyView::BigInt64(unzigzag(u % 0x1_0000_0000_0000_0000) as i64), next)),
        }
    } else if b[pos] == TAG_FALSE {
        Ok((AnyView::False, pos + 1))
    } else if b[pos] == TAG_TRUE {
        Ok((AnyView::True, pos + 1))
    } else if b[pos] == TAG_STRING {
        match str_at(b, pos + 1) {
            Err(e) => Err(e),
            Ok((s, next)) => Ok((AnyView::String(s), next)),
        }
    } else if (b[pos] == TAG_OBJECT || b[pos] == TAG_ARRAY) && d == 0 {
        Err(CodecError::TooDeep)
    } else if b[pos] == TAG_OBJECT {
        match varint_at(b, pos + 1, 0) {
            None => Err(CodecError::Truncated),
            Some((n, start)) => {
                if start <= pos || start > b.len() {
                    Err(CodecError::Truncated)
                } else {
                    match fields_in(b, start, n, Seq::empty(), (d - 1) as nat) {
                        Err(e) => Err(e),
                        Ok((fields, next)) => Ok((AnyView::Object(fields), next)),
                    }
                }
            },
        }
    } else if b[pos] == TAG_ARRAY {
        match varint_at(b, pos + 1, 0) {
            None => Err(CodecError::Truncated),
            Some((n, start)) => {
                if start <= pos || start > b.len() {
                    Err(CodecError::Truncated)
                } else {
                    match items_in(b, start, n, Seq::empty(), (d - 1) as nat) {
                        Err(e) => Err(e),
                        Ok((items, next)) => Ok((AnyView::Array(items), next)),
                    }
                }
            },
        }
    } else {
        Err(CodecError::InvalidTag)
    }
}

/// `n` values one after another from `pos` on, appended to `acc`.
pub open spec fn items_in(b: Seq<u8>, pos: int, n: nat, acc: Seq<AnyView>, d: nat) -> Result<
    (Seq<AnyView>, int),
    CodecError,
>
    decreases b.len() - pos, n + 1,
{
    if n == 0 {
        Ok((acc, pos))
    } else {
        match any_in(b, pos, d) {
            Err(e) => Err(e),
            Ok((v, next)) => {
                if next <= pos || next > b.len() {
                    Err(CodecError::Truncated)
                } else {
                    items_in(b, next, (n - 1) as nat, acc.push(v), d)
                }
            },
        }
    }
}

/// `n` fields one after another from `pos` on, put into `acc`.
pub open spec fn fields_in(b: Seq<u8>, pos: int, n: nat, acc: FieldsView, d: nat) -> Result<
    (FieldsView, int),
    CodecError,
>
    decreases b.len() - pos, n + 1,
{
    if n == 0 {
        Ok((acc, pos))
    } else {
        match str_at(b, pos) {
            Err(e) => Err(e),
            Ok((k, vpos)) => {
                if vpos < pos || vpos > b.len() {
                    Err(CodecError::Truncated)
                } else {
                    match any_in(b, vpos, d) {
                        Err(e) => Err(e),
                        Ok((v, next)) => {
                            if next <= pos || next > b.len() {
                                Err(CodecError::Truncated)
                            } else {
                                fields_in(b, next, (n - 1) as nat, put_field(acc, k, v), d)
                            }
                        },
                    }
                }
            },
        }
    }
}

/// How deep lists and records may be nested in what is decoded.
pub const MAX_DEPTH: usize = 128;

/// The value that starts at `pos`, nested no deeper than [`MAX_DEPTH`], and
/// the position behind it.
pub open spec fn any_at(b: Seq<u8>, pos: int) -> Result<(AnyView, int), CodecError> {
    any_in(b, pos, MAX_DEPTH as nat)
}

/// Lists and records are nested no more than `d` deep in the value.
pub open spec fn within_depth(v: AnyView, d: nat) -> bool
    decreases v,
{
    match v {
        AnyView::Object(fields) => {
            &&& d > 0
            &&& forall|i: int|
                0 <= i < fields.len() ==> within_depth((#[trigger] fields[i]).1, (d - 1) as nat)
        },
        AnyView::Array(items) => {
            &&& d > 0
            &&& forall|i: int|
                0 <= i < items.len() ==> within_depth(#[trigger] items[i], (d - 1) as nat)
        },
        _ => true,
    }
}

/// Every length in the value fits the 64 bits of its prefix.
pub open spec fn fits(v: AnyView) -> bool
    decreases v,
{
    match v {
        AnyView::String(s) => encode_utf8(s).len() <= u64::MAX,
        AnyView::Object(fields) => {
            &&& fields.len() <= u64::MAX
            &&& forall|i: int|
                0 <= i < fields.len() ==> encode_utf8((#[trigger] fields[i]).0).len() <= u64::MAX
                    && fits(fields[i].1)
        },
        AnyView::Array(items) => {
            &&& items.len() <= u64::MAX
            &&& forall|i: int| 0 <= i < items.len() ==> fits(#[trigger] items[i])
        },
        _ => true,
    }
}

/// In every object of the value, at any depth, the keys stand in their
/// order, each once.
pub open spec fn keys_sorted(v: AnyView) -> bool
    decreases v,
{
    match v {
        AnyView::Object(fields) => {
            &&& sorted_keys(fields)
            &&& forall|i: int| 0 <= i < fields.len() ==> keys_sorted((#[trigger] fields[i]).1)
        },
        AnyView::Array(items) => forall|i: int|
            0 <= i < items.len() ==> keys_sorted(#[trigger] items[i]),
        _ => true,
    }
}

/// The value at the start of a buffer.
pub open spec fn decoded(b: Seq<u8>) -> Result<AnyView, CodecError> {
    match any_at(b, 0) {
        Ok((v, _)) => Ok(v),
        Err(e) => Err(e),
    }
}

/// What the codec can represent at any depth.
pub open spec fn plain(v: AnyView) -> bool {
    keys_sorted(v) && fits(v)
}

/// What the codec can represent: keys in their order, lengths that fit
/// their prefix, and nesting no deeper than [`MAX_DEPTH`].
pub open spec fn representable(v: AnyView) -> bool {
    plain(v) && within_depth(v, MAX_DEPTH as nat)
}

/// The views of a vector of values.
pub open spec fn items_view(items: Seq<Any>) -> Seq<AnyView> {
    Seq::new(items.len(), |i: int| items[i]@)
}

/// The views of a vector of fields.
pub open spec fn fields_view(fields: Seq<(String, Any)>) -> FieldsView {
    Seq::new(fields.len(), |i: int| (fields[i].0@, fields[i].1@))
}

proof fn lemma_items_view_to(items: Vec<Any>, n: nat)
    requires
        n <= items.len(),
    ensures
        items_view_to(items, n) == items_view(items@.subrange(0, n as int)),
    decreases n,
{
    if n > 0 {
        lemma_items_view_to(items, (n - 1) as nat);
        assert(items_view(items@.subrange(0, n as int)) =~= items_view(
            items@.subrange(0, n - 1),
        ).push(items[n - 1]@));
    } else {
        assert(items_view(items@.subrange(0, 0)) =~= Seq::empty());
    }
}

proof fn lemma_fields_view_to(fields: Vec<(String, Any)>, n: nat)
    requires
        n <= fields.len(),
    ensures
        fields_view_to(fields, n) == fields_view(fields@.subrange(0, n as int)),
    decreases n,
{
    if n > 0 {
        lemma_fields_view_to(fields, (n - 1) as nat);
        assert(fields_view(fields@.subrange(0, n as int)) =~= fields_view(
            fields@.subrange(0, n - 1),
        ).push((fields[n - 1].0@, fields[n - 1].1@)));
    } else {
        assert(fields_view(fields@.subrange(0, 0)) =~= Seq::empty());
    }
}

/// The view of an array is the views of its values.
pub proof fn lemma_array_view(items: Vec<Any>)
    ensures
        Any::Array(items)@ == AnyView::Array(items_view(items@)),
{
    lemma_items_view_to(items, items.len() as nat);
    assert(items@.subrange(0, items.len() as int) =~= items@);
}

/// The view of an object is the views of its fields.
pub proof fn lemma_object_view(fields: Vec<(String, Any)>)
    ensures
        Any::Object(fields)@ == AnyView::Object(fields_view(fields@)),
{
    lemma_fields_view_to(fields, fields.len() as nat);
    assert(fields@.subrange(0, fields.len() as int) =~= fields@);
}

fn write_zigzag(n: i64, out: &mut Vec<u8>)
    ensures
        final(out)@ == old(out)@ + varint_bytes(zigzag(n as int)),
{
    let u: u64 = if n >= 0 {
        (n as u64) * 2
    } else {
        ((-(n + 1)) as u64) * 2 + 1
    };
    write_varint(u, out);
}

fn write_be32(v: u32, out: &mut Vec<u8>)
    ensures
        final(out)@ == old(out)@ + be32_bytes(v),
{
    out.push((v / 0x100_0000) as u8);
    out.push((v / 0x1_0000 % 256) as u8);
    out.push((v / 0x100 % 256) as u8);
    out.push((v % 256) as u8);
    assert(out@ =~= old(out)@ + be32_bytes(v));
}

fn write_be64(v: u64, out: &mut Vec<u8>)
    ensures
        final(out)@ == old(out)@ + be64_bytes(v),
{
    write_be32((v / 0x1_0000_0000) as u32, out);
    write_be32((v % 0x1_0000_0000) as u32, out);
    assert(out@ =~= old(out)@ + be64_bytes(v));
}

/// Appends a string: the length of its UTF-8 form, then the bytes.
pub fn write_str(s: &str, out: &mut Vec<u8>)
    ensures
        final(out)@ == old(out)@ + str_bytes(s@),
        encode_utf8(s@).len() <= u64::MAX,
{
    let bytes = s.as_bytes();
    write_varint(bytes.len() as u64, out);
    let ghost mid = out@;
    let mut i: usize = 0;
    while i < bytes.len()
        invariant
            i <= bytes.len(),
            out@ == mid + bytes@.subrange(0, i as int),
        decreases bytes.len() - i,
    {
        out.push(bytes[i]);
        i += 1;
        assert(out@ =~= mid + bytes@.subrange(0, i as int));
    }
    assert(bytes@.subrange(0, i as int) =~= bytes@);
    assert(out@ =~= old(out)@ + str_bytes(s@));
}

/// `core::str::from_utf8`: the bytes as a string slice exactly when they
/// are well-formed UTF-8, and then the slice's UTF-8 form is those bytes.
#[verifier::external_body]
pub(crate) fn str_from_utf8<'a>(bytes: &'a [u8]) -> (r: Option<&'a str>)
    ensures
        r is Some <==> valid_utf8(bytes@),
        r is Some ==> encode_utf8(r->Some_0@) == bytes@,
{
    match core::str::from_utf8(bytes) {
        Ok(s) => Some(s),
        Err(_) => None,
    }
}

/// Reads the string at `pos`.
pub fn read_str(b: &[u8], pos: usize) -> (r: Result<(String, usize), CodecError>)
    ensures
        match r {
            Ok((s, next)) => str_at(b@, pos as int) == Ok::<(Seq<char>, int), CodecError>(
                (s@, next as int),
            ) && pos < next <= b.len(),
            Err(e) => str_at(b@, pos as int) == Err::<(Seq<char>, int), CodecError>(e),
        },
{
    match read_varint(b, pos) {
        None => Err(CodecError::Truncated),
        Some((n, start)) => {
            proof {
                lemma_varint_at_bounds(b@, pos as int, 0);
            }
            if n > (b.len() - start) as u64 {
                return Err(CodecError::Truncated);
            }
            let end: usize = start + n as usize;
            let slice = slice_subrange(b, start, end);
            match str_from_utf8(slice) {
                None => Err(CodecError::InvalidUtf8),
                Some(s) => {
                    proof {
                        encode_utf8_decode_utf8(s@);
                    }
                    Ok((s.to_owned(), end))
                },
            }
        },
    }
}

fn unzigzag32(u: u64) -> (r: i32)
    ensures
        r == unzigzag((u % 0x1_0000_0000) as nat),
{
    let w: u64 = u % 0x1_0000_0000;
    if w % 2 == 0 {
        (w / 2) as i32
    } else {
        -((w / 2) as i32) - 1
    }
}

fn unzigzag64(u: u64) -> (r: i64)
    ensures
        r == unzigzag(u as nat),
{
    if u % 2 == 0 {
        (u / 2) as i64
    } else {
        -((u / 2) as i64) - 1
    }
}

fn read_be32(b: &[u8], pos: usize) -> (r: u32)
    requires
        pos + 4 <= b.len(),
    ensures
        r == be32_at(b@, pos as int),
{
    (b[pos] as u32) * 0x100_0000 + (b[pos + 1] as u32) * 0x1_0000 + (b[pos + 2] as u32) * 0x100 + (
    b[pos + 3] as u32)
}

fn read_be64(b: &[u8], pos: usize) -> (r: u64)
    requires
        pos + 8 <= b.len(),
    ensures
        r == be64_at(b@, pos as int),
{
    (read_be32(b, pos) as u64) * 0x1_0000_0000 + (read_be32(b, pos + 4) as u64)
}

/// Whether `a` comes before `b` in the order of keys.
pub fn name_before(a: &String, b: &String) -> (r: bool)
    ensures
        r == name_lt(a@, b@),
{
    let x = a.as_str().as_bytes();
    let y = b.as_str().as_bytes();
    let mut i: usize = 0;
    while i < x.len() && i < y.len()
        invariant
            i <= x.len(),
            i <= y.len(),
            x@ == encode_utf8(a@),
            y@ == encode_utf8(b@),
            bytes_agree(x@, y@, i as int),
        decreases x.len() - i,
    {
        if x[i] < y[i] {
            assert(bytes_part(x@, y@, i as int));
            return true;
        }
        if x[i] > y[i] {
            proof {
                assert(bytes_part(y@, x@, i as int));
                lemma_bytes_lt_asym(y@, x@);
            }
            return false;
        }
        i += 1;
    }
    proof {
        if x.len() >= y.len() {
            if x.len() > y.len() {
                assert(bytes_agree(y@, x@, y@.len() as int));
                lemma_bytes_lt_asym(y@, x@);
            } else {
                assert(x@ =~= y@);
                if bytes_lt(x@, y@) {
                    lemma_bytes_lt_asym(x@, y@);
                }
            }
        }
    }
    x.len() < y.len()
}

/// Sets `key` to `value` in a field list whose keys stand in their order.
pub(crate) fn put(fields: &mut Vec<(String, Any)>, key: String, value: Any)
    requires
        sorted_keys(fields_view(old(fields)@)),
        value.wf(),
        forall|j: int| 0 <= j < old(fields).len() ==> (#[trigger] old(fields)[j]).1.wf(),
    ensures
        fields_view(final(fields)@) == put_field(fields_view(old(fields)@), key@, value@),
        sorted_keys(fields_view(final(fields)@)),
        forall|j: int| 0 <= j < final(fields).len() ==> (#[trigger] final(fields)[j]).1.wf(),
{
    let ghost before = fields_view(fields@);
    let mut i: usize = fields.len();
    while i > 0 && name_before(&key, &fields[i - 1].0)
        invariant
            i <= fields.len(),
            fields@ == old(fields)@,
            before == fields_view(fields@),
            forall|j: int| i <= j < before.len() ==> name_lt(key@, (#[trigger] before[j]).0),
        decreases i,
    {
        i -= 1;
    }
    proof {
        if i > 0 {
            assert(before[i - 1].0 == fields@[i - 1].0@);
        }
        lemma_put_at(before, key@, value@, i as int);
        lemma_put_field(before, key@, value@);
    }
    if i > 0 && fields[i - 1].0 == key {
        fields.set(i - 1, (key, value));
        assert(fields_view(fields@) =~= before.update(i - 1, (key@, value@)));
        assert forall|j: int| 0 <= j < fields.len() implies (#[trigger] fields[j]).1.wf() by {
            if j != i - 1 {
                assert(old(fields)[j].1 == fields[j].1);
            }
        }
    } else {
        fields.insert(i, (key, value));
        assert(fields_view(fields@) =~= before.insert(i as int, (key@, value@)));
        assert forall|j: int| 0 <= j < fields.len() implies (#[trigger] fields[j]).1.wf() by {
            if j < i {
                assert(old(fields)[j].1 == fields[j].1);
            } else if j > i {
                assert(old(fields)[j - 1].1 == fields[j].1);
            }
        }
    }
}

impl Any {
    /// In every object of the value the keys stand in their order, each
    /// once.
    pub open spec fn wf(&self) -> bool {
        keys_sorted(self@)
    }

    /// Lists and records are nested no deeper than [`MAX_DEPTH`].
    pub open spec fn shallow(&self) -> bool {
        within_depth(self@, MAX_DEPTH as nat)
    }

    /// Appends the encoding of the value to `out`.
    pub fn write(&self, out: &mut Vec<u8>)
        ensures
            final(out)@ == old(out)@ + any_bytes(self@),
            fits(self@),
        decreases self,
    {
        match self {
            Any::Undefined => {
                out.push(TAG_UNDEFINED);
                assert(out@ =~= old(out)@ + any_bytes(self@));
            },
            Any::Null => {
                out.push(TAG_NULL);
                assert(out@ =~= old(out)@ + any_bytes(self@));
            },
            Any::Integer(n) => {
                out.push(TAG_INTEGER);
                write_zigzag(*n as i64, out);
                assert(out@ =~= old(out)@ + any_bytes(self@));
            },
            Any::Float32(bits) => {
                out.push(TAG_FLOAT32);
                write_be32(*bits, out);
                assert(out@ =~= old(out)@ + any_bytes(self@));
            },
            Any::Float64(bits) => {
                out.push(TAG_FLOAT64);
                write_be64(*bits, out);
                assert(out@ =~= old(out)@ + any_bytes(self@));
            },
            Any::BigInt64(n) => {
                out.push(TAG_BIGINT64);
                write_zigzag(*n, out);
                assert(out@ =~= old(out)@ + any_bytes(self@));
            },
            Any::False => {
                out.push(TAG_FALSE);
                assert(out@ =~= old(out)@ + any_bytes(self@));
            },
            Any::True => {
                out.push(TAG_TRUE);
                assert(out@ =~= old(out)@ + any_bytes(self@));
            },
            Any::String(s) => {
                out.push(TAG_STRING);
                write_str(s.as_str(), out);
                assert(out@ =~= old(out)@ + any_bytes(self@));
            },
            Any::Object(fields) => {
                proof {
                    lemma_object_view(*fields);
                }
                let ghost view = fields_view(fields@);
                out.push(TAG_OBJECT);
                write_varint(fields.len() as u64, out);
                let ghost head = old(out)@ + seq![TAG_OBJECT] + varint_bytes(fields.len() as nat);
                assert(out@ =~= head);
                let mut i: usize = 0;
                while i < fields.len()
                    invariant
                        i <= fields.len(),
                        view == fields_view(fields@),
                        *self is Object && self->Object_0 == *fields,
                        out@ + fields_bytes(view, i as int) == head + fields_bytes(view, 0),
                        forall|j: int|
                            0 <= j < i ==> encode_utf8((#[trigger] view[j]).0).len() <= u64::MAX
                                && fits(view[j].1),
                    decreases fields.len() - i,
                {
                    let ghost before = out@;
                    write_str(fields[i].0.as_str(), out);
                    assert(decreases_to!(*self => self->Object_0));
                    assert(decreases_to!(*fields => fields[i as int]));
                    assert(decreases_to!(fields[i as int] => fields[i as int].1));
                    fields[i].1.write(out);
                    proof {
                        let rest = fields_bytes(view, i + 1);
                        assert(out@ + rest =~= before + (str_bytes(view[i as int].0) + any_bytes(
                            view[i as int].1,
                        ) + rest));
                    }
                    i += 1;
                }
                assert(out@ =~= old(out)@ + any_bytes(self@));
            },
            Any::Array(items) => {
                proof {
                    lemma_array_view(*items);
                }
                let ghost view = items_view(items@);
                out.push(TAG_ARRAY);
                write_varint(items.len() as u64, out);
                let ghost head = old(out)@ + seq![TAG_ARRAY] + varint_bytes(items.len() as nat);
                assert(out@ =~= head);
                let mut i: usize = 0;
                while i < items.len()
                    invariant
                        i <= items.len(),
                        view == items_view(items@),
                        *self is Array && self->Array_0 == *items,
                        out@ + items_bytes(view, i as int) == head + items_bytes(view, 0),
                        forall|j: int| 0 <= j < i ==> fits(#[trigger] view[j]),
                    decreases items.len() - i,
                {
                    let ghost before = out@;
                    assert(decreases_to!(*self => self->Array_0));
                    assert(decreases_to!(*items => items[i as int]));
                    items[i].write(out);
                    proof {
                        let rest = items_bytes(view, i + 1);
                        assert(out@ + rest =~= before + (any_bytes(view[i as int]) + rest));
                    }
                    i += 1;
                }
                assert(out@ =~= old(out)@ + any_bytes(self@));
            },
        }
    }

    /// The record of these fields, in the order of its keys; of the values
    /// given for one key the last stands.
    pub fn object(fields: Vec<(String, Any)>) -> (r: Any)
        requires
            forall|j: int| 0 <= j < fields.len() ==> (#[trigger] fields[j]).1.wf(),
        ensures
            r@ == AnyView::Object(ordered(fields_view(fields@), fields.len() as int)),
            r.wf(),
    {
        let ghost all = fields_view(fields@);
        let ghost given = fields@;
        let total = fields.len();
        let mut rest = fields;
        let mut back: Vec<(String, Any)> = Vec::new();
        while rest.len() > 0
            invariant
                back.len() + rest.len() == given.len(),
                forall|k: int| 0 <= k < rest.len() ==> #[trigger] rest[k] == given[k],
                forall|k: int|
                    0 <= k < back.len() ==> #[trigger] back[k] == given[given.len() - 1 - k],
            decreases rest.len(),
        {
            let field = rest.pop().unwrap();
            back.push(field);
        }
        let mut out: Vec<(String, Any)> = Vec::new();
        let mut n: usize = 0;
        assert(fields_view(out@) =~= ordered(all, 0));
        while back.len() > 0
            invariant
                n + back.len() == given.len(),
                given.len() == total,
                all == fields_view(given),
                forall|k: int|
                    0 <= k < back.len() ==> #[trigger] back[k] == given[given.len() - 1 - k],
                forall|j: int| 0 <= j < given.len() ==> (#[trigger] given[j]).1.wf(),
                fields_view(out@) == ordered(all, n as int),
                sorted_keys(fields_view(out@)),
                forall|j: int| 0 <= j < out.len() ==> (#[trigger] out[j]).1.wf(),
            decreases back.len(),
        {
            let field = back.pop().unwrap();
            assert(field == given[n as int]);
            assert(all[n as int] == (field.0@, field.1@));
            put(&mut out, field.0, field.1);
            n += 1;
        }
        proof {
            lemma_object_view(out);
            assert forall|j: int| 0 <= j < out.len() implies keys_sorted(
                (#[trigger] fields_view(out@)[j]).1,
            ) by {
                assert(out[j].1.wf());
            }
        }
        Any::Object(out)
    }

    /// A copy of the value.
    pub fn cloned(&self) -> (r: Any)
        ensures
            r@ == self@,
        decreases self,
    {
        match self {
            Any::Undefined => Any::Undefined,
            Any::Null => Any::Null,
            Any::Integer(n) => Any::Integer(*n),
            Any::Float32(bits) => Any::Float32(*bits),
            Any::Float64(bits) => Any::Float64(*bits),
            Any::BigInt64(n) => Any::BigInt64(*n),
            Any::False => Any::False,
            Any::True => Any::True,
            Any::String(s) => Any::String(s.clone()),
            Any::Object(fields) => {
                let mut copy: Vec<(String, Any)> = Vec::new();
                let mut i: usize = 0;
                while i < fields.len()
                    invariant
                        i <= fields.len(),
                        *self is Object && self->Object_0 == *fields,
                        fields_view(copy@) == fields_view(fields@.subrange(0, i as int)),
                    decreases fields.len() - i,
                {
                    assert(decreases_to!(*self => self->Object_0));
                    assert(decreases_to!(*fields => fields[i as int]));
                    assert(decreases_to!(fields[i as int] => fields[i as int].1));
                    let ghost before = fields_view(copy@);
                    let value = fields[i].1.cloned();
                    copy.push((fields[i].0.clone(), value));
                    i += 1;
                    assert(fields_view(copy@) =~= before.push(
                        (fields[i - 1].0@, fields[i - 1].1@),
                    ));
                    assert(fields_view(fields@.subrange(0, i as int)) =~= before.push(
                        (fields[i - 1].0@, fields[i - 1].1@),
                    ));
                }
                proof {
                    assert(fields@.subrange(0, i as int) =~= fields@);
                    lemma_object_view(*fields);
                    lemma_object_view(copy);
                }
                Any::Object(copy)
            },
            Any::Array(items) => {
                let mut copy: Vec<Any> = Vec::new();
                let mut i: usize = 0;
                while i < items.len()
                    invariant
                        i <= items.len(),
                        *self is Array && self->Array_0 == *items,
                        items_view(copy@) == items_view(items@.subrange(0, i as int)),
                    decreases items.len() - i,
                {
                    assert(decreases_to!(*self => self->Array_0));
                    assert(decreases_to!(*items => items[i as int]));
                    let ghost before = items_view(copy@);
                    let value = items[i].cloned();
                    copy.push(value);
                    i += 1;
                    assert(items_view(copy@) =~= before.push(items[i - 1]@));
                    assert(items_view(items@.subrange(0, i as int)) =~= before.push(items[i - 1]@));
                }
                proof {
                    assert(items@.subrange(0, i as int) =~= items@);
                    lemma_array_view(*items);
                    lemma_array_view(copy);
                }
                Any::Array(copy)
            },
        }
    }

    /// Reads the value that starts at `pos`, nested no deeper than `depth`;
    /// gives it with the position behind it.
    pub fn read_in(b: &[u8], pos: usize, depth: usize) -> (r: Result<(Any, usize), CodecError>)
        ensures
            match r {
                Ok((v, next)) => any_in(b@, pos as int, depth as nat) == Ok::<(AnyView, int), CodecError>(
                    (v@, next as int),
                ) && pos < next <= b.len() && v.wf() && within_depth(v@, depth as nat),
                Err(e) => any_in(b@, pos as int, depth as nat) == Err::<(AnyView, int), CodecError>(e),
            },
        decreases b.len() - pos,
    {
        if pos >= b.len() {
            return Err(CodecError::Truncated);
        }
        let tag: u8 = b[pos];
        if tag == TAG_UNDEFINED {
            Ok((Any::Undefined, pos + 1))
        } else if tag == TAG_NULL {
            Ok((Any::Null, pos + 1))
        } else if tag == TAG_INTEGER {
            match read_varint(b, pos + 1) {
                None => Err(CodecError::Truncated),
                Some((u, next)) => {
                    proof {
                        lemma_varint_at_bounds(b@, pos + 1, 0);
                    }
                    Ok((Any::Integer(unzigzag32(u)), next))
                },
            }
        } else if tag == TAG_FLOAT32 {
            if b.len() - pos < 5 {
                Err(CodecError::Truncated)
            } else {
                Ok((Any::Float32(read_be32(b, pos + 1)), pos + 5))
            }
        } else if tag == TAG_FLOAT64 {
            if b.len() - pos < 9 {
                Err(CodecError::Truncated)
            } else {
                Ok((Any::Float64(read_be64(b, pos + 1)), pos + 9))
            }
        } else if tag == TAG_BIGINT64 {
            match read_varint(b, pos + 1) {
                None => Err(CodecError::Truncated),
                Some((u, next)) => {
                    proof {
                        lemma_varint_at_bounds(b@, pos + 1, 0);
                        lemma_cap_zero();
                    }
                    Ok((Any::BigInt64(unzigzag64(u)), next))
                },
            }
        } else if tag == TAG_FALSE {
            Ok((Any::False, pos + 1))
        } else if tag == TAG_TRUE {
            Ok((Any::True, pos + 1))
        } else if tag == TAG_STRING {
            match read_str(b, pos + 1) {
                Err(e) => Err(e),
                Ok((s, next)) => Ok((Any::String(s), next)),
            }
        } else if (tag == TAG_OBJECT || tag == TAG_ARRAY) && depth == 0 {
            Err(CodecError::TooDeep)
        } else if tag == TAG_OBJECT {
            match read_varint(b, pos + 1) {
                None => Err(CodecError::Truncated),
                Some((n, start)) => {
                    proof {
                        lemma_varint_at_bounds(b@, pos + 1, 0);
                    }
                    let mut fields: Vec<(String, Any)> = Vec::new();
                    let mut cur: usize = start;
                    let mut left: u64 = n;
                    assert(fields_view(fields@) =~= Seq::empty());
                    while left > 0
                        invariant
                            pos < start <= cur <= b.len(),
                            any_in(b@, pos as int, depth as nat) == match fields_in(
                                b@,
                                start as int,
                                n as nat,
                                Seq::empty(),
                                (depth - 1) as nat,
                            ) {
                                Err(e) => Err::<(AnyView, int), CodecError>(e),
                                Ok((fs, next)) => Ok((AnyView::Object(fs), next)),
                            },
                            sorted_keys(fields_view(fields@)),
                            depth > 0,
                            forall|j: int| 0 <= j < fields.len() ==> (#[trigger] fields[j]).1.wf(),
                            forall|j: int|
                                0 <= j < fields.len() ==> within_depth(
                                    (#[trigger] fields_view(fields@)[j]).1,
                                    (depth - 1) as nat,
                                ),
                            fields_in(b@, start as int, n as nat, Seq::empty(), (depth - 1) as nat) == fields_in(
                                b@,
                                cur as int,
                                left as nat,
                                fields_view(fields@),
                                (depth - 1) as nat,
                            ),
                        decreases left,
                    {
                        let (key, vpos) = match read_str(b, cur) {
                            Err(e) => {
                                return Err(e);
                            },
                            Ok(kv) => kv,
                        };
                        let (value, next) = match Any::read_in(b, vpos, depth - 1) {
                            Err(e) => {
                                return Err(e);
                            },
                            Ok(vn) => vn,
                        };
                        let ghost old_view = fields_view(fields@);
                        proof {
                            lemma_put_field(old_view, key@, value@);
                        }
                        put(&mut fields, key, value);
                        proof {
                            let now = fields_view(fields@);
                            assert forall|j: int| 0 <= j < now.len() implies within_depth(
                                (#[trigger] now[j]).1,
                                (depth - 1) as nat,
                            ) by {
                                if !(now[j] == (key@, value@)) {
                                    let m = choose|m: int|
                                        0 <= m < old_view.len() && #[trigger] old_view[m] == now[j];
                                    assert(within_depth(old_view[m].1, (depth - 1) as nat));
                                }
                            }
                        }
                        cur = next;
                        left = left - 1;
                    }
                    proof {
                        lemma_object_view(fields);
                        assert forall|j: int| 0 <= j < fields.len() implies keys_sorted(
                            (#[trigger] fields_view(fields@)[j]).1,
                        ) by {
                            assert(fields[j].1.wf());
                        }
                    }
                    Ok((Any::Object(fields), cur))
                },
            }
        } else if tag == TAG_ARRAY {
            match read_varint(b, pos + 1) {
                None => Err(CodecError::Truncated),
                Some((n, start)) => {
                    proof {
                        lemma_varint_at_bounds(b@, pos + 1, 0);
                    }
                    let mut items: Vec<Any> = Vec::new();
                    let mut cur: usize = start;
                    let mut left: u64 = n;
                    assert(items_view(items@) =~= Seq::empty());
                    while left > 0
                        invariant
                            pos < start <= cur <= b.len(),
                            any_in(b@, pos as int, depth as nat) == match items_in(
                                b@,
                                start as int,
                                n as nat,
                                Seq::empty(),
                                (depth - 1) as nat,
                            ) {
                                Err(e) => Err::<(AnyView, int), CodecError>(e),
                                Ok((is, next)) => Ok((AnyView::Array(is), next)),
                            },
                            depth > 0,
                            forall|j: int| 0 <= j < items.len() ==> (#[trigger] items[j]).wf(),
                            forall|j: int|
                                0 <= j < items.len() ==> within_depth(
                                    #[trigger] items_view(items@)[j],
                                    (depth - 1) as nat,
                                ),
                            items_in(b@, start as int, n as nat, Seq::empty(), (depth - 1) as nat) == items_in(
                                b@,
                                cur as int,
                                left as nat,
                                items_view(items@),
                                (depth - 1) as nat,
                            ),
                        decreases left,
                    {
                        let ghost before = items_view(items@);
                        let (value, next) = match Any::read_in(b, cur, depth - 1) {
                            Err(e) => {
                                return Err(e);
                            },
                            Ok(vn) => vn,
                        };
                        items.push(value);
                        assert(items_view(items@) =~= before.push(value@));
                        cur = next;
                        left = left - 1;
                    }
                    proof {
                        lemma_array_view(items);
                        assert forall|j: int| 0 <= j < items.len() implies keys_sorted(
                            #[trigger] items_view(items@)[j],
                        ) by {
                            assert(items[j].wf());
                        }
                    }
                    Ok((Any::Array(items), cur))
                },
            }
        } else {
            Err(CodecError::InvalidTag)
        }
    }

    /// Reads the value that starts at `pos`; gives it with the position
    /// behind it. Lists and records nested deeper than [`MAX_DEPTH`] are
    /// refused.
    pub fn read(b: &[u8], pos: usize) -> (r: Result<(Any, usize), CodecError>)
        ensures
            match r {
                Ok((v, next)) => any_at(b@, pos as int) == Ok::<(AnyView, int), CodecError>(
                    (v@, next as int),
                ) && pos < next <= b.len() && v.wf() && v.shallow(),
                Err(e) => any_at(b@, pos as int) == Err::<(AnyView, int), CodecError>(e),
            },
    {
        Any::read_in(b, pos, MAX_DEPTH)
    }

    /// The encoding of the value.
    pub fn encode(&self) -> (r: Vec<u8>)
        ensures
            r@ == any_bytes(self@),
            self.wf() && self.shallow() ==> decoded(r@) == Ok::<AnyView, CodecError>(self@),
    {
        let mut out: Vec<u8> = Vec::new();
        self.write(&mut out);
        assert(out@ =~= any_bytes(self@));
        proof {
            if self.wf() && self.shallow() {
                lemma_decode_encode(self@);
            }
        }
        out
    }

    /// Decodes the value at the start of `bytes`; what follows it is not
    /// looked at.
    pub fn decode(bytes: &[u8]) -> (r: Result<Any, CodecError>)
        ensures
            match r {
                Ok(v) => decoded(bytes@) == Ok::<AnyView, CodecError>(v@) && v.wf() && v.shallow(),
                Err(e) => decoded(bytes@) == Err::<AnyView, CodecError>(e),
            },
    {
        match Any::read(bytes, 0) {
            Ok((v, _)) => Ok(v),
            Err(e) => Err(e),
        }
    }
}

/// `x` stands in `b` from `pos` on.
pub open spec fn holds_at(b: Seq<u8>, pos: int, x: Seq<u8>) -> bool {
    0 <= pos && pos + x.len() <= b.len() && b.subrange(pos, pos + x.len()) == x
}

/// Where two sequences stand one behind the other, each stands at its place.
pub proof fn lemma_holds_split(b: Seq<u8>, pos: int, x: Seq<u8>, y: Seq<u8>)
    requires
        holds_at(b, pos, x + y),
    ensures
        holds_at(b, pos, x),
        holds_at(b, pos + x.len(), y),
{
    let whole = b.subrange(pos, pos + (x + y).len());
    assert(b.subrange(pos, pos + x.len()) =~= x) by {
        assert forall|i: int| 0 <= i < x.len() implies b[pos + i] == x[i] by {
            assert(whole[i] == (x + y)[i]);
        }
    }
    assert(b.subrange(pos + x.len(), pos + x.len() + y.len()) =~= y) by {
        assert forall|i: int| 0 <= i < y.len() implies b[pos + x.len() + i] == y[i] by {
            assert(whole[x.len() + i] == (x + y)[x.len() + i]);
        }
    }
}

proof fn lemma_be32_round_trip(b: Seq<u8>, pos: int, v: u32)
    requires
        holds_at(b, pos, be32_bytes(v)),
    ensures
        be32_at(b, pos) == v,
{
    let x = be32_bytes(v);
    let w = b.subrange(pos, pos + 4);
    assert(b[pos] == w[0] && b[pos + 1] == w[1] && b[pos + 2] == w[2] && b[pos + 3] == w[3]);
}

proof fn lemma_be64_round_trip(b: Seq<u8>, pos: int, v: u64)
    requires
        holds_at(b, pos, be64_bytes(v)),
    ensures
        be64_at(b, pos) == v,
{
    let hi = (v / 0x1_0000_0000) as u32;
    let lo = (v % 0x1_0000_0000) as u32;
    lemma_holds_split(b, pos, be32_bytes(hi), be32_bytes(lo));
    lemma_be32_round_trip(b, pos, hi);
    lemma_be32_round_trip(b, pos + 4, lo);
}

/// Reading back a written string gives the string.
pub proof fn lemma_str_round_trip(b: Seq<u8>, pos: int, s: Seq<char>)
    requires
        holds_at(b, pos, str_bytes(s)),
        encode_utf8(s).len() <= u64::MAX,
    ensures
        str_at(b, pos) == Ok::<(Seq<char>, int), CodecError>((s, pos + str_bytes(s).len())),
{
    let body = encode_utf8(s);
    let head = varint_bytes(body.len());
    lemma_holds_split(b, pos, head, body);
    lemma_cap_zero();
    lemma_varint_round_trip(b, pos, body.len(), 0);
    encode_utf8_valid_utf8(s);
    encode_utf8_decode_utf8(s);
}

/// Every encoding begins with its discriminant.
pub proof fn lemma_any_bytes_nonempty(v: AnyView)
    ensures
        any_bytes(v).len() >= 1,
{
}

proof fn lemma_integer_round_trip(b: Seq<u8>, pos: int, n: i32, d: nat)
    requires
        holds_at(b, pos, any_bytes(AnyView::Integer(n))),
    ensures
        any_in(b, pos, d) == Ok::<(AnyView, int), CodecError>(
            (AnyView::Integer(n), pos + any_bytes(AnyView::Integer(n)).len()),
        ),
{
    let enc = any_bytes(AnyView::Integer(n));
    lemma_cap_zero();
    assert(b[pos] == b.subrange(pos, pos + enc.len())[0]);
    let z = zigzag(n as int);
    lemma_holds_split(b, pos, seq![TAG_INTEGER], varint_bytes(z));
    lemma_varint_round_trip(b, pos + 1, z, 0);
}

proof fn lemma_bigint_round_trip(b: Seq<u8>, pos: int, n: i64, d: nat)
    requires
        holds_at(b, pos, any_bytes(AnyView::BigInt64(n))),
    ensures
        any_in(b, pos, d) == Ok::<(AnyView, int), CodecError>(
            (AnyView::BigInt64(n), pos + any_bytes(AnyView::BigInt64(n)).len()),
        ),
{
    let enc = any_bytes(AnyView::BigInt64(n));
    lemma_cap_zero();
    assert(b[pos] == b.subrange(pos, pos + enc.len())[0]);
    let z = zigzag(n as int);
    lemma_holds_split(b, pos, seq![TAG_BIGINT64], varint_bytes(z));
    lemma_varint_round_trip(b, pos + 1, z, 0);
}

proof fn lemma_float_round_trip(b: Seq<u8>, pos: int, v: AnyView, d: nat)
    requires
        holds_at(b, pos, any_bytes(v)),
        v is Float32 || v is Float64,
    ensures
        any_in(b, pos, d) == Ok::<(AnyView, int), CodecError>((v, pos + any_bytes(v).len())),
{
    let enc = any_bytes(v);
    assert(b[pos] == b.subrange(pos, pos + enc.len())[0]);
    match v {
        AnyView::Float32(bits) => {
            lemma_holds_split(b, pos, seq![TAG_FLOAT32], be32_bytes(bits));
            lemma_be32_round_trip(b, pos + 1, bits);
        },
        AnyView::Float64(bits) => {
            lemma_holds_split(b, pos, seq![TAG_FLOAT64], be64_bytes(bits));
            lemma_be64_round_trip(b, pos + 1, bits);
        },
        _ => {},
    }
}

proof fn lemma_string_round_trip(b: Seq<u8>, pos: int, s: Seq<char>, d: nat)
    requires
        holds_at(b, pos, any_bytes(AnyView::String(s))),
        encode_utf8(s).len() <= u64::MAX,
    ensures
        any_in(b, pos, d) == Ok::<(AnyView, int), CodecError>(
            (AnyView::String(s), pos + any_bytes(AnyView::String(s)).len()),
        ),
{
    let enc = any_bytes(AnyView::String(s));
    assert(b[pos] == b.subrange(pos, pos + enc.len())[0]);
    lemma_holds_split(b, pos, seq![TAG_STRING], str_bytes(s));
    lemma_str_round_trip(b, pos + 1, s);
}

proof fn lemma_object_round_trip(b: Seq<u8>, pos: int, fields: FieldsView, d: nat)
    requires
        holds_at(b, pos, any_bytes(AnyView::Object(fields))),
        plain(AnyView::Object(fields)),
        within_depth(AnyView::Object(fields), d),
    ensures
        any_in(b, pos, d) == Ok::<(AnyView, int), CodecError>(
            (AnyView::Object(fields), pos + any_bytes(AnyView::Object(fields)).len()),
        ),
    decreases fields, fields.len() + 1,
{
    let enc = any_bytes(AnyView::Object(fields));
    lemma_cap_zero();
    assert(b[pos] == b.subrange(pos, pos + enc.len())[0]);
    let head = varint_bytes(fields.len());
    let body = fields_bytes(fields, 0);
    assert(enc =~= seq![TAG_OBJECT] + (head + body));
    lemma_holds_split(b, pos, seq![TAG_OBJECT], head + body);
    lemma_holds_split(b, pos + 1, head, body);
    lemma_varint_round_trip(b, pos + 1, fields.len(), 0);
    assert(fields.subrange(0, 0) =~= Seq::empty());
    lemma_fields_round_trip(b, pos + 1 + head.len(), fields, 0, (d - 1) as nat);
}

proof fn lemma_array_round_trip(b: Seq<u8>, pos: int, items: Seq<AnyView>, d: nat)
    requires
        holds_at(b, pos, any_bytes(AnyView::Array(items))),
        plain(AnyView::Array(items)),
        within_depth(AnyView::Array(items), d),
    ensures
        any_in(b, pos, d) == Ok::<(AnyView, int), CodecError>(
            (AnyView::Array(items), pos + any_bytes(AnyView::Array(items)).len()),
        ),
    decreases items, items.len() + 1,
{
    let enc = any_bytes(AnyView::Array(items));
    lemma_cap_zero();
    assert(b[pos] == b.subrange(pos, pos + enc.len())[0]);
    let head = varint_bytes(items.len());
    let body = items_bytes(items, 0);
    assert(enc =~= seq![TAG_ARRAY] + (head + body));
    lemma_holds_split(b, pos, seq![TAG_ARRAY], head + body);
    lemma_holds_split(b, pos + 1, head, body);
    lemma_varint_round_trip(b, pos + 1, items.len(), 0);
    assert(items.subrange(0, 0) =~= Seq::empty());
    lemma_items_round_trip(b, pos + 1 + head.len(), items, 0, (d - 1) as nat);
}

/// Decoding what was encoded gives the value back, wherever in a buffer
/// the encoding stands, and ends right behind it.
pub proof fn lemma_any_in_round_trip(b: Seq<u8>, pos: int, v: AnyView, d: nat)
    requires
        holds_at(b, pos, any_bytes(v)),
        plain(v),
        within_depth(v, d),
    ensures
        any_in(b, pos, d) == Ok::<(AnyView, int), CodecError>((v, pos + any_bytes(v).len())),
    decreases v, 0nat,
{
    match v {
        AnyView::Integer(n) => lemma_integer_round_trip(b, pos, n, d),
        AnyView::BigInt64(n) => lemma_bigint_round_trip(b, pos, n, d),
        AnyView::Float32(_) => lemma_float_round_trip(b, pos, v, d),
        AnyView::Float64(_) => lemma_float_round_trip(b, pos, v, d),
        AnyView::String(s) => lemma_string_round_trip(b, pos, s, d),
        AnyView::Object(fields) => lemma_object_round_trip(b, pos, fields, d),
        AnyView::Array(items) => lemma_array_round_trip(b, pos, items, d),
        _ => {
            assert(b[pos] == b.subrange(pos, pos + any_bytes(v).len())[0]);
        },
    }
}

proof fn lemma_items_round_trip(b: Seq<u8>, pos: int, items: Seq<AnyView>, from: int, d: nat)
    requires
        0 <= from <= items.len(),
        holds_at(b, pos, items_bytes(items, from)),
        forall|i: int|
            0 <= i < items.len() ==> plain(#[trigger] items[i]) && within_depth(items[i], d),
    ensures
        items_in(b, pos, (items.len() - from) as nat, items.subrange(0, from), d) == Ok::<
            (Seq<AnyView>, int),
            CodecError,
        >((items, pos + items_bytes(items, from).len())),
    decreases items, items.len() - from,
{
    if from == items.len() {
        assert(items.subrange(0, from) =~= items);
    } else {
        let first = any_bytes(items[from]);
        let rest = items_bytes(items, from + 1);
        lemma_holds_split(b, pos, first, rest);
        lemma_any_in_round_trip(b, pos, items[from], d);
        lemma_any_bytes_nonempty(items[from]);
        assert(items.subrange(0, from).push(items[from]) =~= items.subrange(0, from + 1));
        lemma_items_round_trip(b, pos + first.len(), items, from + 1, d);
    }
}

proof fn lemma_fields_round_trip(b: Seq<u8>, pos: int, fields: FieldsView, from: int, d: nat)
    requires
        0 <= from <= fields.len(),
        holds_at(b, pos, fields_bytes(fields, from)),
        sorted_keys(fields),
        forall|i: int|
            0 <= i < fields.len() ==> encode_utf8((#[trigger] fields[i]).0).len() <= u64::MAX
                && plain(fields[i].1) && within_depth(fields[i].1, d),
    ensures
        fields_in(b, pos, (fields.len() - from) as nat, fields.subrange(0, from), d) == Ok::<
            (FieldsView, int),
            CodecError,
        >((fields, pos + fields_bytes(fields, from).len())),
    decreases fields, fields.len() - from,
{
    if from == fields.len() {
        assert(fields.subrange(0, from) =~= fields);
    } else {
        let key = str_bytes(fields[from].0);
        let value = any_bytes(fields[from].1);
        let rest = fields_bytes(fields, from + 1);
        assert(fields_bytes(fields, from) =~= key + (value + rest));
        lemma_holds_split(b, pos, key, value + rest);
        lemma_holds_split(b, pos + key.len(), value, rest);
        lemma_str_round_trip(b, pos, fields[from].0);
        lemma_any_in_round_trip(b, pos + key.len(), fields[from].1, d);
        lemma_any_bytes_nonempty(fields[from].1);
        let acc = fields.subrange(0, from);
        assert(put_field(acc, fields[from].0, fields[from].1) == acc.push(fields[from])) by {
            if from > 0 {
                assert(acc.last() == fields[from - 1]);
                assert(name_lt(fields[from - 1].0, fields[from].0));
                lemma_name_order(fields[from - 1].0, fields[from].0);
            }
        }
        assert(acc.push(fields[from]) =~= fields.subrange(0, from + 1));
        lemma_fields_round_trip(b, pos + key.len() + value.len(), fields, from + 1, d);
    }
}

/// Decoding what was encoded gives the value back, wherever in a buffer
/// the encoding stands, and ends right behind it.
pub proof fn lemma_any_round_trip(b: Seq<u8>, pos: int, v: AnyView)
    requires
        holds_at(b, pos, any_bytes(v)),
        representable(v),
    ensures
        any_at(b, pos) == Ok::<(AnyView, int), CodecError>((v, pos + any_bytes(v).len())),
{
    lemma_any_in_round_trip(b, pos, v, MAX_DEPTH as nat);
}

/// Decoding the encoding of a representable value gives the value back.
pub proof fn lemma_decode_encode(v: AnyView)
    requires
        representable(v),
    ensures
        decoded(any_bytes(v)) == Ok::<AnyView, CodecError>(v),
{
    let b = any_bytes(v);
    assert(b.subrange(0, b.len() as int) =~= b);
    lemma_any_round_trip(b, 0, v);
}

} // verus!
