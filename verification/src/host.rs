//! Values on their way between the host runtime and the document: what the
//! library hands to the host, and what is read from it.

use crate::any::{
    has_field, lemma_put_field, lemma_sorted_same,
    fields_view, items_view, keys_sorted, lemma_array_view, lemma_object_view, put, put_field,
    sorted_keys, Any, AnyView, FieldsView,
};
use crate::shared::TypeRef;
use vstd::prelude::*;

verus! {

/// A value that the library hands to the host runtime. Numbers are held
/// as the library holds them, floats by their bit patterns.
#[derive(Debug, PartialEq, Eq)]
pub enum JsValue {
    Null,
    Boolean(bool),
    Int32(i32),
    Int64(i64),
    Float(u32),
    Double(u64),
    String(String),
    Array(Vec<JsValue>),
    /// The handle on a shared type.
    External(TypeRef),
}

/// The mathematical value of a [`JsValue`].
pub ghost enum JsView {
    Null,
    Boolean(bool),
    Int32(i32),
    Int64(i64),
    Float(u32),
    Double(u64),
    String(Seq<char>),
    Array(Seq<JsView>),
    External(TypeRef),
}

/// The views of the first `n` values of a vector.
pub open spec fn js_items_to(items: Vec<JsValue>, n: nat) -> Seq<JsView>
    decreases items, n,
{
    if n == 0 || n > items.len() {
        Seq::empty()
    } else {
        js_items_to(items, (n - 1) as nat).push(js_view(items[n - 1]))
    }
}

/// The mathematical value of `j`.
pub open spec fn js_view(j: JsValue) -> JsView
    decreases j, 0nat,
{
    match j {
        JsValue::Null => JsView::Null,
        JsValue::Boolean(b) => JsView::Boolean(b),
        JsValue::Int32(n) => JsView::Int32(n),
        JsValue::Int64(n) => JsView::Int64(n),
        JsValue::Float(bits) => JsView::Float(bits),
        JsValue::Double(bits) => JsView::Double(bits),
        JsValue::String(s) => JsView::String(s@),
        JsValue::Array(items) => JsView::Array(js_items_to(items, items.len() as nat)),
        JsValue::External(handle) => JsView::External(handle),
    }
}

impl View for JsValue {
    type V = JsView;

    open spec fn view(&self) -> JsView {
        js_view(*self)
    }
}

/// The views of a vector of host values.
pub open spec fn js_items_view(items: Seq<JsValue>) -> Seq<JsView> {
    Seq::new(items.len(), |i: int| items[i]@)
}

proof fn lemma_js_items_to(items: Vec<JsValue>, n: nat)
    requires
        n <= items.len(),
    ensures
        js_items_to(items, n) == js_items_view(items@.subrange(0, n as int)),
    decreases n,
{
    if n > 0 {
        lemma_js_items_to(items, (n - 1) as nat);
        assert(js_items_view(items@.subrange(0, n as int)) =~= js_items_view(
            items@.subrange(0, n - 1),
        ).push(items[n - 1]@));
    } else {
        assert(js_items_view(items@.subrange(0, 0)) =~= Seq::empty());
    }
}

/// The view of a host list is the views of its values.
pub proof fn lemma_js_array_view(items: Vec<JsValue>)
    ensures
        JsValue::Array(items)@ == JsView::Array(js_items_view(items@)),
{
    lemma_js_items_to(items, items.len() as nat);
    assert(items@.subrange(0, items.len() as int) =~= items@);
}

/// A value as it is read from the host runtime. The host has one kind of
/// number, held here by the bit pattern of its double.
#[derive(Debug, PartialEq, Eq)]
pub enum HostValue {
    Undefined,
    Null,
    Boolean(bool),
    Number(u64),
    String(String),
    Array(Vec<HostValue>),
    Object(Vec<(String, HostValue)>),
    /// A value that the document cannot hold: a function, a symbol, a
    /// handle.
    Unsupported,
}

/// The mathematical value of a [`HostValue`].
pub ghost enum HostView {
    Undefined,
    Null,
    Boolean(bool),
    Number(u64),
    String(Seq<char>),
    Array(Seq<HostView>),
    Object(Seq<(Seq<char>, HostView)>),
    Unsupported,
}

/// The views of the first `n` values of a vector.
pub open spec fn host_items_to(items: Vec<HostValue>, n: nat) -> Seq<HostView>
    decreases items, n,
{
    if n == 0 || n > items.len() {
        Seq::empty()
    } else {
        host_items_to(items, (n - 1) as nat).push(host_view(items[n - 1]))
    }
}

/// The views of the first `n` fields of a vector.
pub open spec fn host_fields_to(fields: Vec<(String, HostValue)>, n: nat) -> Seq<(Seq<char>, HostView)>
    decreases fields, n,
{
    if n == 0 || n > fields.len() {
        Seq::empty()
    } else {
        host_fields_to(fields, (n - 1) as nat).push((fields[n - 1].0@, host_view(fields[n - 1].1)))
    }
}

/// The mathematical value of `j`.
pub open spec fn host_view(j: HostValue) -> HostView
    decreases j, 0nat,
{
    match j {
        HostValue::Undefined => HostView::Undefined,
        HostValue::Null => HostView::Null,
        HostValue::Boolean(b) => HostView::Boolean(b),
        HostValue::Number(bits) => HostView::Number(bits),
        HostValue::String(s) => HostView::String(s@),
        HostValue::Array(items) => HostView::Array(host_items_to(items, items.len() as nat)),
        HostValue::Object(fields) => HostView::Object(host_fields_to(fields, fields.len() as nat)),
        HostValue::Unsupported => HostView::Unsupported,
    }
}

impl View for HostValue {
    type V = HostView;

    open spec fn view(&self) -> HostView {
        host_view(*self)
    }
}

/// The views of a vector of values read from the host.
pub open spec fn host_items_view(items: Seq<HostValue>) -> Seq<HostView> {
    Seq::new(items.len(), |i: int| items[i]@)
}

/// The views of a vector of host fields.
pub open spec fn host_fields_view(fields: Seq<(String, HostValue)>) -> Seq<(Seq<char>, HostView)> {
    Seq::new(fields.len(), |i: int| (fields[i].0@, fields[i].1@))
}

proof fn lemma_host_items_to(items: Vec<HostValue>, n: nat)
    requires
        n <= items.len(),
    ensures
        host_items_to(items, n) == host_items_view(items@.subrange(0, n as int)),
    decreases n,
{
    if n > 0 {
        lemma_host_items_to(items, (n - 1) as nat);
        assert(host_items_view(items@.subrange(0, n as int)) =~= host_items_view(
            items@.subrange(0, n - 1),
        ).push(items[n - 1]@));
    } else {
        assert(host_items_view(items@.subrange(0, 0)) =~= Seq::empty());
    }
}

proof fn lemma_host_fields_to(fields: Vec<(String, HostValue)>, n: nat)
    requires
        n <= fields.len(),
    ensures
        host_fields_to(fields, n) == host_fields_view(fields@.subrange(0, n as int)),
    decreases n,
{
    if n > 0 {
        lemma_host_fields_to(fields, (n - 1) as nat);
        assert(host_fields_view(fields@.subrange(0, n as int)) =~= host_fields_view(
            fields@.subrange(0, n - 1),
        ).push((fields[n - 1].0@, fields[n - 1].1@)));
    } else {
        assert(host_fields_view(fields@.subrange(0, 0)) =~= Seq::empty());
    }
}

/// The view of a host list is the views of its values.
pub proof fn lemma_host_array_view(items: Vec<HostValue>)
    ensures
        HostValue::Array(items)@ == HostView::Array(host_items_view(items@)),
{
    lemma_host_items_to(items, items.len() as nat);
    assert(items@.subrange(0, items.len() as int) =~= items@);
}

/// The view of a host record is the views of its fields.
pub proof fn lemma_host_object_view(fields: Vec<(String, HostValue)>)
    ensures
        HostValue::Object(fields)@ == HostView::Object(host_fields_view(fields@)),
{
    lemma_host_fields_to(fields, fields.len() as nat);
    assert(fields@.subrange(0, fields.len() as int) =~= fields@);
}

/// What a shared type hands to the host: a plain value, or the handle on
/// a shared type.
pub enum Value {
    Any(Any),
    Array(TypeRef),
    Mapping(TypeRef),
    Text(TypeRef),
}

/// Why a host value is no value of the document.
#[derive(Clone, Copy, Debug, PartialEq, Eq, Structural)]
pub enum ConvertError {
    /// The value is neither a list nor a record.
    NotObject,
    /// The document has no value of this kind.
    NotAny,
}

/// The host value for a value of the document. A record becomes the
/// host's null.
pub open spec fn js_of_any(a: AnyView) -> JsView
    decreases a, 0nat,
{
    match a {
        AnyView::Undefined => JsView::Null,
        AnyView::Null => JsView::Null,
        AnyView::True => JsView::Boolean(true),
        AnyView::False => JsView::Boolean(false),
        AnyView::Integer(n) => JsView::Int32(n),
        AnyView::BigInt64(n) => JsView::Int64(n),
        AnyView::Float32(bits) => JsView::Float(bits),
        AnyView::Float64(bits) => JsView::Double(bits),
        AnyView::String(s) => JsView::String(s),
        AnyView::Array(items) => JsView::Array(js_of_items(items, items.len() as int)),
        AnyView::Object(_) => JsView::Null,
    }
}

/// The host values for the first `n` values.
pub open spec fn js_of_items(items: Seq<AnyView>, n: int) -> Seq<JsView>
    decreases items, n,
{
    if n <= 0 || n > items.len() {
        Seq::empty()
    } else {
        js_of_items(items, n - 1).push(js_of_any(items[n - 1]))
    }
}

/// The value of the document for a value read from the host: every number
/// a 64-bit float. The first value in reading order that the document cannot
/// hold gives the error. A record comes to stand in the order of its keys,
/// whatever the order in which the host lists them; where a key comes again,
/// the last value wins.
pub open spec fn any_of_js(j: HostView) -> Result<AnyView, ConvertError>
    decreases j, 0nat,
{
    match j {
        HostView::Undefined => Ok(AnyView::Null),
        HostView::Null => Ok(AnyView::Null),
        HostView::Boolean(b) => Ok(
            if b {
                AnyView::True
            } else {
                AnyView::False
            },
        ),
        HostView::Number(bits) => Ok(AnyView::Float64(bits)),
        HostView::String(s) => Ok(AnyView::String(s)),
        HostView::Array(items) => match any_of_items(items, items.len() as int) {
            Ok(values) => Ok(AnyView::Array(values)),
            Err(e) => Err(e),
        },
        HostView::Object(fields) => match any_of_fields(fields, fields.len() as int) {
            Ok(values) => Ok(AnyView::Object(values)),
            Err(e) => Err(e),
        },
        HostView::Unsupported => Err(ConvertError::NotAny),
    }
}

/// The values of the document for the first `n` host values.
pub open spec fn any_of_items(items: Seq<HostView>, n: int) -> Result<Seq<AnyView>, ConvertError>
    decreases items, n,
{
    if n <= 0 || n > items.len() {
        Ok(Seq::empty())
    } else {
        match any_of_items(items, n - 1) {
            Err(e) => Err(e),
            Ok(acc) => match any_of_js(items[n - 1]) {
                Err(e) => Err(e),
                Ok(v) => Ok(acc.push(v)),
            },
        }
    }
}

/// The fields of the document for the first `n` host fields.
pub open spec fn any_of_fields(fields: Seq<(Seq<char>, HostView)>, n: int) -> Result<
    FieldsView,
    ConvertError,
>
    decreases fields, n,
{
    if n <= 0 || n > fields.len() {
        Ok(Seq::empty())
    } else {
        match any_of_fields(fields, n - 1) {
            Err(e) => Err(e),
            Ok(acc) => match any_of_js(fields[n - 1].1) {
                Err(e) => Err(e),
                Ok(v) => Ok(put_field(acc, fields[n - 1].0, v)),
            },
        }
    }
}

/// The value of the document for a host list or record.
pub open spec fn any_of_object(j: HostView) -> Result<AnyView, ConvertError> {
    match j {
        HostView::Array(_) => any_of_js(j),
        HostView::Object(_) => any_of_js(j),
        _ => Err(ConvertError::NotObject),
    }
}

fn js_from(any: &Any) -> (r: JsValue)
    ensures
        r@ == js_of_any(any@),
    decreases any,
{
    match any {
        Any::Null => JsValue::Null,
        Any::Undefined => JsValue::Null,
        Any::True => JsValue::Boolean(true),
        Any::False => JsValue::Boolean(false),
        Any::Integer(number) => JsValue::Int32(*number),
        Any::BigInt64(number) => JsValue::Int64(*number),
        Any::Float32(bits) => JsValue::Float(*bits),
        Any::Float64(bits) => JsValue::Double(*bits),
        Any::String(string) => JsValue::String(string.clone()),
        Any::Array(array) => {
            let mut out: Vec<JsValue> = Vec::new();
            let ghost view = items_view(array@);
            proof {
                lemma_array_view(*array);
            }
            assert(js_items_view(out@) =~= js_of_items(view, 0));
            let mut i: usize = 0;
            while i < array.len()
                invariant
                    i <= array.len(),
                    view == items_view(array@),
                    *any is Array && any->Array_0 == *array,
                    js_items_view(out@) == js_of_items(view, i as int),
                decreases array.len() - i,
            {
                assert(decreases_to!(*any => any->Array_0));
                assert(decreases_to!(*array => array[i as int]));
                let ghost before = js_items_view(out@);
                let value = js_from(&array[i]);
                out.push(value);
                assert(js_items_view(out@) =~= before.push(value@));
                i += 1;
            }
            proof {
                lemma_js_array_view(out);
            }
            JsValue::Array(out)
        },
        _ => JsValue::Null,
    }
}

/// The host value for a value of the document.
pub fn get_js_unknown_from_any(any: Any) -> (r: JsValue)
    ensures
        r@ == js_of_any(any@),
{
    js_from(&any)
}

/// The host value for what a shared type hands out: for a plain value its
/// host value, for a shared type its handle.
pub fn get_js_unknown_from_value(value: Value) -> (r: JsValue)
    ensures
        match value {
            Value::Any(any) => r@ == js_of_any(any@),
            Value::Array(handle) => r@ == JsView::External(handle),
            Value::Mapping(handle) => r@ == JsView::External(handle),
            Value::Text(handle) => r@ == JsView::External(handle),
        },
{
    match value {
        Value::Any(any) => get_js_unknown_from_any(any),
        Value::Array(handle) => JsValue::External(handle),
        Value::Mapping(handle) => JsValue::External(handle),
        Value::Text(handle) => JsValue::External(handle),
    }
}

/// The value of the document for a host list or record.
pub fn get_any_from_js_object(object: &HostValue) -> (r: Result<Any, ConvertError>)
    ensures
        match r {
            Ok(any) => any_of_object(object@) == Ok::<AnyView, ConvertError>(any@) && any.wf(),
            Err(e) => any_of_object(object@) == Err::<AnyView, ConvertError>(e),
        },
    decreases object, 0nat,
{
    match object {
        HostValue::Array(items) => {
            let mut array: Vec<Any> = Vec::new();
            let ghost view = host_items_view(items@);
            proof {
                lemma_host_array_view(*items);
            }
            assert(items_view(array@) =~= Seq::empty());
            let mut i: usize = 0;
            while i < items.len()
                invariant
                    i <= items.len(),
                    view == host_items_view(items@),
                    *object is Array && object->Array_0 == *items,
                    object@ == HostView::Array(view),
                    any_of_items(view, i as int) == Ok::<Seq<AnyView>, ConvertError>(
                        items_view(array@),
                    ),
                    forall|j: int| 0 <= j < array.len() ==> (#[trigger] array[j]).wf(),
                decreases items.len() - i,
            {
                assert(decreases_to!(*object => object->Array_0));
                assert(decreases_to!(*items => items[i as int]));
                let ghost before = items_view(array@);
                match get_any_from_js_unknown(&items[i]) {
                    Err(e) => {
                        proof {
                            lemma_items_error(view, i + 1, items.len() as int);
                        }
                        return Err(e);
                    },
                    Ok(value) => {
                        array.push(value);
                        assert(items_view(array@) =~= before.push(value@));
                    },
                }
                i += 1;
            }
            proof {
                lemma_array_view(array);
                assert forall|j: int| 0 <= j < array.len() implies keys_sorted(
                    #[trigger] items_view(array@)[j],
                ) by {
                    assert(array[j].wf());
                }
            }
            Ok(Any::Array(array))
        },
        HostValue::Object(fields) => {
            let mut map: Vec<(String, Any)> = Vec::new();
            let ghost view = host_fields_view(fields@);
            proof {
                lemma_host_object_view(*fields);
            }
            assert(fields_view(map@) =~= Seq::empty());
            let mut i: usize = 0;
            while i < fields.len()
                invariant
                    i <= fields.len(),
                    view == host_fields_view(fields@),
                    *object is Object && object->Object_0 == *fields,
                    object@ == HostView::Object(view),
                    any_of_fields(view, i as int) == Ok::<FieldsView, ConvertError>(
                        fields_view(map@),
                    ),
                    sorted_keys(fields_view(map@)),
                    forall|j: int| 0 <= j < map.len() ==> (#[trigger] map[j]).1.wf(),
                decreases fields.len() - i,
            {
                assert(decreases_to!(*object => object->Object_0));
                assert(decreases_to!(*fields => fields[i as int]));
                assert(decreases_to!(fields[i as int] => fields[i as int].1));
                match get_any_from_js_unknown(&fields[i].1) {
                    Err(e) => {
                        proof {
                            lemma_fields_error(view, i + 1, fields.len() as int);
                        }
                        return Err(e);
                    },
                    Ok(value) => {
                        put(&mut map, fields[i].0.clone(), value);
                    },
                }
                i += 1;
            }
            proof {
                lemma_object_view(map);
                assert forall|j: int| 0 <= j < map.len() implies keys_sorted(
                    (#[trigger] fields_view(map@)[j]).1,
                ) by {
                    assert(map[j].1.wf());
                }
            }
            Ok(Any::Object(map))
        },
        _ => Err(ConvertError::NotObject),
    }
}

/// The value of the document for a host value.
pub fn get_any_from_js_unknown(js_unknown: &HostValue) -> (r: Result<Any, ConvertError>)
    ensures
        match r {
            Ok(any) => any_of_js(js_unknown@) == Ok::<AnyView, ConvertError>(any@) && any.wf(),
            Err(e) => any_of_js(js_unknown@) == Err::<AnyView, ConvertError>(e),
        },
    decreases js_unknown, 1nat,
{
    match js_unknown {
        HostValue::Undefined => Ok(Any::Null),
        HostValue::Null => Ok(Any::Null),
        HostValue::Boolean(b) => Ok(
            if *b {
                Any::True
            } else {
                Any::False
            },
        ),
        HostValue::Number(bits) => Ok(Any::Float64(*bits)),
        HostValue::String(s) => Ok(Any::String(s.clone())),
        HostValue::Array(_) => get_any_from_js_object(js_unknown),
        HostValue::Object(_) => get_any_from_js_object(js_unknown),
        HostValue::Unsupported => Err(ConvertError::NotAny),
    }
}

/// An error among the first values is the error of the whole list.
proof fn lemma_items_error(items: Seq<HostView>, m: int, n: int)
    requires
        0 <= m <= n <= items.len(),
        any_of_items(items, m) is Err,
    ensures
        any_of_items(items, n) == any_of_items(items, m),
    decreases n - m,
{
    if m < n {
        lemma_items_error(items, m, n - 1);
    }
}

proof fn lemma_fields_error(fields: Seq<(Seq<char>, HostView)>, m: int, n: int)
    requires
        0 <= m <= n <= fields.len(),
        any_of_fields(fields, m) is Err,
    ensures
        any_of_fields(fields, n) == any_of_fields(fields, m),
    decreases n - m,
{
    if m < n {
        lemma_fields_error(fields, m, n - 1);
    }
}

/// What a value read from the host can become: null, a boolean, a 64-bit
/// float, a string, or a list or record of such.
pub open spec fn from_host(a: AnyView) -> bool
    decreases a,
{
    match a {
        AnyView::Null => true,
        AnyView::True => true,
        AnyView::False => true,
        AnyView::Float64(_) => true,
        AnyView::String(_) => true,
        AnyView::Array(items) => forall|i: int|
            0 <= i < items.len() ==> from_host(#[trigger] items[i]),
        AnyView::Object(fields) => forall|i: int|
            0 <= i < fields.len() ==> from_host((#[trigger] fields[i]).1),
        _ => false,
    }
}

/// No value read from the host becomes an integer, a 32-bit float or the
/// undefined value, at any depth.
pub proof fn lemma_from_host(j: HostView)
    ensures
        any_of_js(j) is Ok ==> from_host(any_of_js(j)->Ok_0),
    decreases j, 0nat,
{
    match j {
        HostView::Array(items) => {
            lemma_items_from_host(items, items.len() as int);
        },
        HostView::Object(fields) => {
            lemma_fields_from_host(fields, fields.len() as int);
        },
        _ => {},
    }
}

proof fn lemma_items_from_host(items: Seq<HostView>, n: int)
    ensures
        any_of_items(items, n) is Ok ==> forall|i: int|
            0 <= i < any_of_items(items, n)->Ok_0.len() ==> from_host(
                #[trigger] any_of_items(items, n)->Ok_0[i],
            ),
    decreases items, n,
{
    if 0 < n <= items.len() {
        lemma_items_from_host(items, n - 1);
        lemma_from_host(items[n - 1]);
    }
}

proof fn lemma_fields_from_host(fields: Seq<(Seq<char>, HostView)>, n: int)
    ensures
        any_of_fields(fields, n) is Ok ==> forall|i: int|
            0 <= i < any_of_fields(fields, n)->Ok_0.len() ==> from_host(
                (#[trigger] any_of_fields(fields, n)->Ok_0[i]).1,
            ),
    decreases fields, n,
{
    if 0 < n <= fields.len() {
        lemma_fields_from_host(fields, n - 1);
        lemma_from_host(fields[n - 1].1);
        if any_of_fields(fields, n) is Ok {
            let acc = any_of_fields(fields, n - 1)->Ok_0;
            let v = any_of_js(fields[n - 1].1)->Ok_0;
            let k = fields[n - 1].0;
            lemma_put_field(acc, k, v);
            let r = put_field(acc, k, v);
            assert forall|i: int| 0 <= i < r.len() implies from_host((#[trigger] r[i]).1) by {
                if r[i] != (k, v) {
                    let m = choose|m: int| 0 <= m < acc.len() && #[trigger] acc[m] == r[i];
                    assert(from_host(acc[m].1));
                }
            }
        }
    }
}

/// The fields of a host record with the values that they become.
pub open spec fn converted(fields: Seq<(Seq<char>, HostView)>) -> FieldsView {
    Seq::new(fields.len(), |i: int| (fields[i].0, any_of_js(fields[i].1)->Ok_0))
}

/// No two fields have the same key.
pub open spec fn distinct_keys(fields: Seq<(Seq<char>, HostView)>) -> bool {
    forall|i: int, j: int|
        0 <= i < j < fields.len() ==> (#[trigger] fields[i]).0 != (#[trigger] fields[j]).0
}

/// Every field of `a` is a field of `b`.
pub open spec fn fields_within(a: Seq<(Seq<char>, HostView)>, b: Seq<(Seq<char>, HostView)>)
    -> bool {
    forall|i: int| 0 <= i < a.len() ==> exists|j: int| 0 <= j < b.len() && #[trigger] b[j] == #[trigger] a[i]
}

proof fn lemma_fields_result(fields: Seq<(Seq<char>, HostView)>, n: int)
    requires
        0 <= n <= fields.len(),
        distinct_keys(fields),
        forall|i: int| 0 <= i < fields.len() ==> any_of_js((#[trigger] fields[i]).1) is Ok,
    ensures
        any_of_fields(fields, n) is Ok,
        sorted_keys(any_of_fields(fields, n)->Ok_0),
        forall|i: int| 0 <= i < n ==> has_field(any_of_fields(fields, n)->Ok_0, #[trigger] converted(fields)[i]),
        forall|m: int|
            0 <= m < any_of_fields(fields, n)->Ok_0.len() ==> exists|i: int|
                0 <= i < n && #[trigger] converted(fields)[i] == #[trigger] any_of_fields(fields, n)->Ok_0[m],
    decreases n,
{
    if n > 0 {
        lemma_fields_result(fields, n - 1);
        let acc = any_of_fields(fields, n - 1)->Ok_0;
        let k = fields[n - 1].0;
        let v = any_of_js(fields[n - 1].1)->Ok_0;
        lemma_put_field(acc, k, v);
        let r = put_field(acc, k, v);
        let c = converted(fields);
        assert(c[n - 1] == (k, v));
        assert forall|i: int| 0 <= i < n implies has_field(r, #[trigger] c[i]) by {
            if i < n - 1 {
                assert(has_field(acc, c[i]));
                let m = choose|m: int| 0 <= m < acc.len() && #[trigger] acc[m] == c[i];
                assert(fields[i].0 != fields[n - 1].0);
                assert(acc[m].0 != k);
            }
        }
        assert forall|m: int| 0 <= m < r.len() implies exists|i: int|
            0 <= i < n && #[trigger] c[i] == #[trigger] r[m] by {
            if r[m] == (k, v) {
                assert(c[n - 1] == r[m]);
            } else {
                let j = choose|j: int| 0 <= j < acc.len() && #[trigger] acc[j] == r[m];
                let i = choose|i: int| 0 <= i < n - 1 && #[trigger] c[i] == #[trigger] acc[j];
                assert(c[i] == r[m]);
            }
        }
    }
}

/// The order in which the host lists the fields of a record does not
/// matter: two records with the same fields, each key once, become the same
/// value.
pub proof fn lemma_record_order(f1: Seq<(Seq<char>, HostView)>, f2: Seq<(Seq<char>, HostView)>)
    requires
        distinct_keys(f1),
        distinct_keys(f2),
        fields_within(f1, f2),
        fields_within(f2, f1),
        forall|i: int| 0 <= i < f1.len() ==> any_of_js((#[trigger] f1[i]).1) is Ok,
    ensures
        any_of_js(HostView::Object(f1)) is Ok,
        any_of_js(HostView::Object(f1)) == any_of_js(HostView::Object(f2)),
{
    assert forall|i: int| 0 <= i < f2.len() implies any_of_js((#[trigger] f2[i]).1) is Ok by {
        let j = choose|j: int| 0 <= j < f1.len() && #[trigger] f1[j] == #[trigger] f2[i];
        assert(any_of_js(f1[j].1) is Ok);
    }
    lemma_fields_result(f1, f1.len() as int);
    lemma_fields_result(f2, f2.len() as int);
    let a = any_of_fields(f1, f1.len() as int)->Ok_0;
    let b = any_of_fields(f2, f2.len() as int)->Ok_0;
    let c1 = converted(f1);
    let c2 = converted(f2);
    assert forall|m: int| 0 <= m < a.len() implies has_field(b, #[trigger] a[m]) by {
        let i = choose|i: int| 0 <= i < f1.len() && #[trigger] c1[i] == #[trigger] a[m];
        let j = choose|j: int| 0 <= j < f2.len() && #[trigger] f2[j] == #[trigger] f1[i];
        assert(c2[j] == c1[i]);
        assert(has_field(b, c2[j]));
    }
    assert forall|m: int| 0 <= m < b.len() implies has_field(a, #[trigger] b[m]) by {
        let i = choose|i: int| 0 <= i < f2.len() && #[trigger] c2[i] == #[trigger] b[m];
        let j = choose|j: int| 0 <= j < f1.len() && #[trigger] f1[j] == #[trigger] f2[i];
        assert(c1[j] == c2[i]);
        assert(has_field(a, c1[j]));
    }
    lemma_sorted_same(a, b);
}

} // verus!
