use octo_doc::any::{Any, CodecError};
use octo_doc::varint::{read_varint, write_varint};
use rand::distr::Alphanumeric;
use rand::Rng;

fn round_trip(v: &Any) -> Any {
    Any::decode(&v.encode()).unwrap()
}

fn nested(depth: usize) -> Any {
    let mut v = Any::String("leaf".to_string());
    for i in 0..depth {
        if i % 2 == 0 {
            v = Any::Array(vec![v, Any::Null]);
        } else {
            v = Any::Object(vec![("k".to_string(), v)]);
        }
    }
    v
}

fn get_random_string() -> String {
    rand::rng()
        .sample_iter(&Alphanumeric)
        .take(7)
        .map(char::from)
        .collect()
}

#[test]
fn varint_small_values_take_one_byte() {
    let mut out = Vec::new();
    write_varint(0, &mut out);
    write_varint(127, &mut out);
    assert_eq!(out, vec![0u8, 127]);
}

#[test]
fn varint_encodes_300_in_two_bytes() {
    let mut out = Vec::new();
    write_varint(300, &mut out);
    assert_eq!(out, vec![0xACu8, 0x02]);
    assert_eq!(read_varint(&out, 0), Some((300, 2)));
}

#[test]
fn varint_max_takes_ten_bytes() {
    let mut out = Vec::new();
    write_varint(u64::MAX, &mut out);
    assert_eq!(
        out,
        vec![0xFFu8, 0xFF, 0xFF, 0xFF, 0xFF, 0xFF, 0xFF, 0xFF, 0xFF, 0x01]
    );
    assert_eq!(read_varint(&out, 0), Some((u64::MAX, 10)));
}

#[test]
fn varint_tenth_byte_counts_by_its_lowest_bit() {
    let bytes = vec![0xFFu8, 0xFF, 0xFF, 0xFF, 0xFF, 0xFF, 0xFF, 0xFF, 0xFF, 0x7F, 0x05];
    assert_eq!(read_varint(&bytes, 0), Some((u64::MAX, 10)));
    let bytes = vec![0x80u8, 0x80, 0x80, 0x80, 0x80, 0x80, 0x80, 0x80, 0x80, 0xFE];
    assert_eq!(read_varint(&bytes, 0), Some((0, 10)));
}

#[test]
fn varint_truncated_is_none() {
    assert_eq!(read_varint(&[0x80u8, 0x80], 0), None);
    assert_eq!(read_varint(&[], 0), None);
    assert_eq!(read_varint(&[1u8], 1), None);
}

#[test]
fn any_exact_bytes() {
    assert_eq!(Any::Undefined.encode(), vec![127u8]);
    assert_eq!(Any::Null.encode(), vec![126u8]);
    assert_eq!(Any::Integer(1).encode(), vec![125u8, 2]);
    assert_eq!(Any::Integer(-1).encode(), vec![125u8, 1]);
    assert_eq!(Any::Integer(-64).encode(), vec![125u8, 127]);
    assert_eq!(Any::Integer(64).encode(), vec![125u8, 0x80, 0x01]);
    assert_eq!(
        Any::Float32(1.5f32.to_bits()).encode(),
        vec![124u8, 0x3F, 0xC0, 0x00, 0x00]
    );
    assert_eq!(
        Any::Float64(1.5f64.to_bits()).encode(),
        vec![123u8, 0x3F, 0xF8, 0, 0, 0, 0, 0, 0]
    );
    assert_eq!(Any::BigInt64(-2).encode(), vec![122u8, 3]);
    assert_eq!(Any::False.encode(), vec![121u8]);
    assert_eq!(Any::True.encode(), vec![120u8]);
    assert_eq!(Any::String("x".to_string()).encode(), vec![119u8, 1, 120]);
    assert_eq!(
        Any::Array(vec![Any::True, Any::Null]).encode(),
        vec![117u8, 2, 120, 126]
    );
    assert_eq!(
        Any::Object(vec![("a".to_string(), Any::True)]).encode(),
        vec![118u8, 1, 1, 97, 120]
    );
}

#[test]
fn any_round_trip_scalars() {
    let values = vec![
        Any::Undefined,
        Any::Null,
        Any::True,
        Any::False,
        Any::Integer(0),
        Any::Integer(i32::MAX),
        Any::Integer(i32::MIN),
        Any::BigInt64(i64::MAX),
        Any::BigInt64(i64::MIN),
        Any::BigInt64(-1),
        Any::Float32(f32::NAN.to_bits()),
        Any::Float32((-0.0f32).to_bits()),
        Any::Float64(f64::INFINITY.to_bits()),
        Any::Float64(3.141592653589793f64.to_bits()),
        Any::String(String::new()),
        Any::String("héllo wörld ☃ 😀".to_string()),
    ];
    for v in values.iter() {
        assert_eq!(&round_trip(v), v);
    }
}

#[test]
fn any_round_trip_empty_containers() {
    let a = Any::Array(vec![]);
    let o = Any::Object(vec![]);
    assert_eq!(round_trip(&a), a);
    assert_eq!(round_trip(&o), o);
    assert_eq!(a.encode(), vec![117u8, 0]);
    assert_eq!(o.encode(), vec![118u8, 0]);
}

#[test]
fn any_round_trip_deeply_nested() {
    for depth in [1usize, 5, 6, 40] {
        let v = nested(depth);
        assert_eq!(round_trip(&v), v);
    }
}

#[test]
fn any_round_trip_in_the_middle_of_a_buffer() {
    let v = nested(5);
    let mut buffer = vec![9u8, 9, 9];
    v.write(&mut buffer);
    let end = buffer.len();
    buffer.push(7);
    assert_eq!(Any::read(&buffer, 3), Ok((nested(5), end)));
}

#[test]
fn any_scenario_object_with_nested_array() {
    let v = Any::Object(vec![
        ("a".to_string(), Any::Integer(1)),
        (
            "b".to_string(),
            Any::Array(vec![Any::True, Any::Null, Any::String("x".to_string())]),
        ),
    ]);
    let bytes = v.encode();
    assert_eq!(
        bytes,
        vec![118u8, 2, 1, 97, 125, 2, 1, 98, 117, 3, 120, 126, 119, 1, 120]
    );
    assert_eq!(Any::decode(&bytes), Ok(v));
}

#[test]
fn any_round_trip_random_keys() {
    let data = vec![Any::Integer(7), Any::Null, nested(3), Any::String("v".to_string())];
    let mut fields: Vec<(String, Any)> = Vec::new();
    for a in data.iter() {
        let key = get_random_string();
        if fields.iter().all(|f| f.0 != key) {
            fields.push((key, a.cloned()));
        }
    }
    let any = Any::object(fields);
    assert_eq!(round_trip(&any), any);
    let any = Any::Array(data);
    assert_eq!(round_trip(&any), any);
}

#[test]
fn any_decode_repeated_key_keeps_the_last_value() {
    let bytes = vec![118u8, 3, 1, 97, 126, 1, 98, 121, 1, 97, 120];
    assert_eq!(
        Any::decode(&bytes),
        Ok(Any::Object(vec![
            ("a".to_string(), Any::True),
            ("b".to_string(), Any::False)
        ]))
    );
}

#[test]
fn any_decode_truncated() {
    assert_eq!(Any::decode(&[]), Err(CodecError::Truncated));
    assert_eq!(Any::decode(&[119u8, 5, 97]), Err(CodecError::Truncated));
    assert_eq!(Any::decode(&[125u8]), Err(CodecError::Truncated));
    assert_eq!(Any::decode(&[124u8, 0, 0, 0]), Err(CodecError::Truncated));
    assert_eq!(Any::decode(&[123u8, 0, 0, 0, 0, 0, 0, 0]), Err(CodecError::Truncated));
    assert_eq!(Any::decode(&[117u8, 2, 126]), Err(CodecError::Truncated));
    assert_eq!(Any::decode(&[118u8, 1, 1, 97]), Err(CodecError::Truncated));
}

#[test]
fn any_decode_invalid_tag() {
    assert_eq!(Any::decode(&[1u8]), Err(CodecError::InvalidTag));
    assert_eq!(Any::decode(&[116u8]), Err(CodecError::InvalidTag));
    assert_eq!(Any::decode(&[117u8, 1, 0]), Err(CodecError::InvalidTag));
}

#[test]
fn any_decode_invalid_utf8() {
    assert_eq!(Any::decode(&[119u8, 1, 0xFF]), Err(CodecError::InvalidUtf8));
    assert_eq!(Any::decode(&[119u8, 2, 0xC3, 0x28]), Err(CodecError::InvalidUtf8));
    assert_eq!(
        Any::decode(&[118u8, 1, 1, 0x80, 126]),
        Err(CodecError::InvalidUtf8)
    );
}

#[test]
fn any_decode_never_panics_on_short_buffers() {
    for a in 0..=255u8 {
        let _ = Any::decode(&[a]);
        for b in [0u8, 1, 2, 0x7F, 0x80, 0xFF] {
            let _ = Any::decode(&[a, b]);
            for c in [0u8, 1, 0x80, 0xFF] {
                let _ = Any::decode(&[a, b, c]);
                let _ = Any::decode(&[a, b, c, a, b, c]);
            }
        }
    }
}

#[test]
fn any_decode_ignores_what_follows() {
    assert_eq!(Any::decode(&[126u8, 1, 2, 3]), Ok(Any::Null));
}

#[test]
fn any_integer_takes_the_low_32_bits() {
    assert_eq!(
        Any::decode(&[125u8, 0x82, 0x80, 0x80, 0x80, 0x10]),
        Ok(Any::Integer(1))
    );
}

#[test]
fn any_cloned_is_equal() {
    let v = nested(6);
    assert_eq!(v.cloned(), v);
}

#[test]
fn any_object_stands_in_the_order_of_its_keys() {
    let made = Any::object(vec![
        ("b".to_string(), Any::Integer(1)),
        ("a".to_string(), Any::Integer(2)),
        ("ab".to_string(), Any::Integer(3)),
        ("b".to_string(), Any::Integer(4)),
        (String::new(), Any::Null),
    ]);
    let other = Any::object(vec![
        ("ab".to_string(), Any::Integer(3)),
        (String::new(), Any::Null),
        ("b".to_string(), Any::Integer(4)),
        ("a".to_string(), Any::Integer(2)),
    ]);
    assert_eq!(made, other);
    assert_eq!(
        made,
        Any::Object(vec![
            (String::new(), Any::Null),
            ("a".to_string(), Any::Integer(2)),
            ("ab".to_string(), Any::Integer(3)),
            ("b".to_string(), Any::Integer(4)),
        ])
    );
    assert_eq!(round_trip(&made), made);
}

#[test]
fn any_decode_puts_fields_in_the_order_of_their_keys() {
    let bytes = vec![118u8, 2, 1, 98, 121, 1, 97, 120];
    assert_eq!(
        Any::decode(&bytes),
        Ok(Any::Object(vec![
            ("a".to_string(), Any::True),
            ("b".to_string(), Any::False)
        ]))
    );
}

fn nested_lists(depth: usize) -> Vec<u8> {
    let mut bytes = Vec::new();
    for _ in 0..depth {
        bytes.push(117u8);
        bytes.push(1);
    }
    bytes.push(126);
    bytes
}

#[test]
fn any_decode_bounds_the_depth() {
    use_depth(128, true);
    use_depth(129, false);
    use_depth(100_000, false);
    let mut records = Vec::new();
    for _ in 0..129 {
        records.extend_from_slice(&[118u8, 1, 1, 97]);
    }
    records.push(126);
    assert_eq!(Any::decode(&records), Err(CodecError::TooDeep));
    assert_eq!(Any::read_in(&[117u8, 0], 0, 0), Err(CodecError::TooDeep));
    assert_eq!(Any::read_in(&[126u8], 0, 0), Ok((Any::Null, 1)));
    assert_eq!(Any::read_in(&[117u8, 1, 117, 0], 0, 1), Err(CodecError::TooDeep));
    assert_eq!(
        Any::read_in(&[117u8, 1, 117, 0], 0, 2),
        Ok((Any::Array(vec![Any::Array(vec![])]), 4))
    );
}

fn use_depth(depth: usize, fits: bool) {
    let bytes = nested_lists(depth);
    match Any::decode(&bytes) {
        Ok(v) => {
            assert!(fits);
            assert_eq!(v.encode(), bytes);
        }
        Err(e) => {
            assert!(!fits);
            assert_eq!(e, CodecError::TooDeep);
        }
    }
}
