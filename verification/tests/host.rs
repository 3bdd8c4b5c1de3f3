use octo_doc::any::Any;
use octo_doc::doc_loader::{
    clean_content, parse_doc, text_from_output, Chunk, Document, LoaderError,
};
use octo_doc::host::{
    get_any_from_js_object, get_any_from_js_unknown, get_js_unknown_from_any,
    get_js_unknown_from_value, ConvertError, HostValue, JsValue, Value,
};
use octo_doc::item::{BlockId, TypeKind};
use octo_doc::shared::TypeRef;
use octo_doc::tokenizer::{from_model_name, token_total};

#[test]
fn test_tokenizer() {
    let tokenizer = from_model_name("gpt-4.1".to_string()).unwrap();
    let content = "Hello, world!";
    let count = tokenizer.count(content.to_string(), None);
    assert!(count > 0);
}

#[test]
fn tokenizer_counts_tokens_not_characters() {
    let tokenizer = from_model_name("gpt-4.1".to_string()).unwrap();
    assert_eq!(tokenizer.count(String::new(), None), 0);
    let one = tokenizer.count("hello".to_string(), None);
    let many = tokenizer.count("hello hello hello hello".to_string(), Some(vec![]));
    assert_eq!(one, 1);
    assert_eq!(many, 4);
}

#[test]
fn tokenizer_special_tokens_count_as_one_where_allowed() {
    let tokenizer = from_model_name("gpt-4.1".to_string()).unwrap();
    let text = "<|endoftext|>".to_string();
    let plain = tokenizer.count(text.clone(), None);
    let special = tokenizer.count(text, Some(vec!["<|endoftext|>".to_string()]));
    assert_eq!(special, 1);
    assert!(plain > 1);
}

#[test]
fn tokenizer_unknown_model() {
    assert!(from_model_name("no-such-model".to_string()).is_none());
    assert!(from_model_name(String::new()).is_none());
}

#[test]
fn token_total_keeps_32_bits() {
    assert_eq!(token_total(None), 0);
    assert_eq!(token_total(Some(0)), 0);
    assert_eq!(token_total(Some(12)), 12);
    assert_eq!(token_total(Some(u32::MAX as usize)), u32::MAX);
}

#[test]
fn chunks_are_numbered_from_zero() {
    let doc = Document {
        name: "a.pdf".to_string(),
        chunks: vec!["one".to_string(), "two".to_string(), String::new()],
    };
    assert_eq!(doc.name(), "a.pdf");
    assert_eq!(
        doc.chunks(),
        vec![
            Chunk { index: 0, content: "one".to_string() },
            Chunk { index: 1, content: "two".to_string() },
            Chunk { index: 2, content: String::new() },
        ]
    );
}

#[test]
fn resolve_gives_name_and_chunks() {
    let mut task = parse_doc("dir/a.pdf".to_string(), vec![1, 2, 3]);
    assert_eq!(task.file_path, "dir/a.pdf");
    assert_eq!(task.doc, vec![1u8, 2, 3]);
    let parsed = task.resolve(Document { name: "a".to_string(), chunks: vec!["x".to_string()] });
    assert_eq!(parsed.name, "a");
    assert_eq!(parsed.chunks, vec![Chunk { index: 0, content: "x".to_string() }]);
    assert_eq!(task.doc, vec![1u8, 2, 3]);
    let empty = task.resolve(Document { name: String::new(), chunks: vec![] });
    assert_eq!(empty.chunks, vec![]);
}

#[test]
fn text_from_output_checks_utf8() {
    assert_eq!(
        text_from_output(&"Sample PDF ﬁle".as_bytes().to_vec()),
        Ok("Sample PDF ﬁle".to_string())
    );
    assert_eq!(text_from_output(&vec![]), Ok(String::new()));
    assert_eq!(text_from_output(&vec![0x66, 0xFF]), Err(LoaderError::InvalidUtf8));
}

#[test]
fn document_values_for_the_host() {
    assert_eq!(get_js_unknown_from_any(Any::Undefined), JsValue::Null);
    assert_eq!(get_js_unknown_from_any(Any::Null), JsValue::Null);
    assert_eq!(get_js_unknown_from_any(Any::True), JsValue::Boolean(true));
    assert_eq!(get_js_unknown_from_any(Any::False), JsValue::Boolean(false));
    assert_eq!(get_js_unknown_from_any(Any::Integer(-3)), JsValue::Int32(-3));
    assert_eq!(get_js_unknown_from_any(Any::BigInt64(1 << 40)), JsValue::Int64(1 << 40));
    assert_eq!(
        get_js_unknown_from_any(Any::Float32(1.5f32.to_bits())),
        JsValue::Float(1.5f32.to_bits())
    );
    assert_eq!(
        get_js_unknown_from_any(Any::Float64(2.5f64.to_bits())),
        JsValue::Double(2.5f64.to_bits())
    );
    assert_eq!(
        get_js_unknown_from_any(Any::String("s".to_string())),
        JsValue::String("s".to_string())
    );
    assert_eq!(
        get_js_unknown_from_any(Any::Array(vec![
            Any::True,
            Any::Array(vec![Any::Null]),
            Any::Object(vec![("k".to_string(), Any::True)]),
        ])),
        JsValue::Array(vec![
            JsValue::Boolean(true),
            JsValue::Array(vec![JsValue::Null]),
            JsValue::Null,
        ])
    );
    assert_eq!(
        get_js_unknown_from_any(Any::Object(vec![("k".to_string(), Any::True)])),
        JsValue::Null
    );
}

#[test]
fn shared_types_go_to_the_host_as_handles() {
    let handle = TypeRef { head: BlockId { replica: 1, clock: 2 }, kind: TypeKind::Text };
    assert_eq!(get_js_unknown_from_value(Value::Text(handle)), JsValue::External(handle));
    assert_eq!(get_js_unknown_from_value(Value::Array(handle)), JsValue::External(handle));
    assert_eq!(get_js_unknown_from_value(Value::Mapping(handle)), JsValue::External(handle));
    assert_eq!(get_js_unknown_from_value(Value::Any(Any::True)), JsValue::Boolean(true));
}

#[test]
fn host_values_for_the_document() {
    assert_eq!(get_any_from_js_unknown(&HostValue::Undefined), Ok(Any::Null));
    assert_eq!(get_any_from_js_unknown(&HostValue::Null), Ok(Any::Null));
    assert_eq!(get_any_from_js_unknown(&HostValue::Boolean(true)), Ok(Any::True));
    assert_eq!(get_any_from_js_unknown(&HostValue::Boolean(false)), Ok(Any::False));
    assert_eq!(
        get_any_from_js_unknown(&HostValue::Number(0.5f64.to_bits())),
        Ok(Any::Float64(0.5f64.to_bits()))
    );
    assert_eq!(
        get_any_from_js_unknown(&HostValue::Number(7f64.to_bits())),
        Ok(Any::Float64(7f64.to_bits()))
    );
    assert_eq!(
        get_any_from_js_unknown(&HostValue::String("x".to_string())),
        Ok(Any::String("x".to_string()))
    );
    assert_eq!(get_any_from_js_unknown(&HostValue::Unsupported), Err(ConvertError::NotAny));
    let one = HostValue::Number(1f64.to_bits());
    let two = HostValue::Number(2f64.to_bits());
    let record = HostValue::Object(vec![
        ("a".to_string(), one),
        ("b".to_string(), HostValue::Array(vec![HostValue::Boolean(true), HostValue::Null])),
        ("a".to_string(), two),
    ]);
    let expected = Any::Object(vec![
        ("a".to_string(), Any::Float64(2f64.to_bits())),
        ("b".to_string(), Any::Array(vec![Any::True, Any::Null])),
    ]);
    assert_eq!(get_any_from_js_unknown(&record), Ok(expected.cloned()));
    assert_eq!(get_any_from_js_object(&record), Ok(expected));
    assert_eq!(get_any_from_js_object(&HostValue::Array(vec![])), Ok(Any::Array(vec![])));
    assert_eq!(get_any_from_js_object(&HostValue::Null), Err(ConvertError::NotObject));
    assert_eq!(
        get_any_from_js_object(&HostValue::String("x".to_string())),
        Err(ConvertError::NotObject)
    );
    let broken = HostValue::Array(vec![
        HostValue::Null,
        HostValue::Object(vec![("f".to_string(), HostValue::Unsupported)]),
        HostValue::Null,
    ]);
    assert_eq!(get_any_from_js_unknown(&broken), Err(ConvertError::NotAny));
}

#[test]
fn host_records_do_not_depend_on_the_order_of_their_fields() {
    let field = |k: &str, n: f64| (k.to_string(), HostValue::Number(n.to_bits()));
    let nested = |first: bool| {
        let inner = if first {
            vec![field("x", 1.0), field("y", 2.0)]
        } else {
            vec![field("y", 2.0), field("x", 1.0)]
        };
        HostValue::Object(inner)
    };
    let o1 = HostValue::Object(vec![
        field("b", 2.0),
        ("n".to_string(), nested(true)),
        field("a", 1.0),
        field("é", 3.0),
    ]);
    let o2 = HostValue::Object(vec![
        field("é", 3.0),
        field("a", 1.0),
        ("n".to_string(), nested(false)),
        field("b", 2.0),
    ]);
    let a1 = get_any_from_js_object(&o1).unwrap();
    let a2 = get_any_from_js_object(&o2).unwrap();
    assert_eq!(a1, a2);
    assert_eq!(a1.encode(), a2.encode());
    match a1 {
        Any::Object(fields) => {
            let keys: Vec<&str> = fields.iter().map(|f| f.0.as_str()).collect();
            assert_eq!(keys, vec!["a", "b", "n", "é"]);
        }
        _ => panic!("a record becomes a record"),
    }
}

#[test]
fn chunks_are_cleaned_of_nul_characters() {
    assert_eq!(clean_content("a\0b\0\0c"), "abc");
    assert_eq!(clean_content("\0"), "");
    assert_eq!(clean_content(""), "");
    assert_eq!(clean_content("no nul, é ☃"), "no nul, é ☃");
    let doc = Document {
        name: "n".to_string(),
        chunks: vec!["one\0".to_string(), "\0\0".to_string(), "two".to_string()],
    };
    assert_eq!(
        doc.chunks(),
        vec![
            Chunk { index: 0, content: "one".to_string() },
            Chunk { index: 1, content: String::new() },
            Chunk { index: 2, content: "two".to_string() },
        ]
    );
}
