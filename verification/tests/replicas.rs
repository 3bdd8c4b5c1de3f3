use octo_doc::any::{Any, CodecError};
use octo_doc::doc::{Doc, DocError};
use octo_doc::item::{BlockId, Content, Item, TypeKind};
use octo_doc::shared::TypeRef;
use octo_doc::sync::{StateVector, UpdateError};
use octo_doc::txn::{step, Transaction, TxnEvent, TxnState};
use octo_doc::update::{decode_update, encode_update};

fn name(s: &str) -> String {
    s.to_string()
}

fn text_of(doc: &Doc, n: &str) -> String {
    let ty = doc.find_type(TypeKind::Text, &name(n)).unwrap();
    doc.text(&ty).unwrap()
}

fn strings_of(doc: &Doc, n: &str) -> Vec<String> {
    let ty = doc.find_type(TypeKind::Array, &name(n)).unwrap();
    doc.values(&ty)
        .unwrap()
        .into_iter()
        .map(|v| match v {
            Any::String(s) => s,
            _ => String::new(),
        })
        .collect()
}

fn write_text(doc: &mut Doc, n: &str, index: usize, s: &str) -> Vec<u8> {
    let mut txn = Transaction::begin(doc).unwrap();
    let ty = txn.shared(doc, TypeKind::Text, &name(n)).unwrap();
    txn.insert_text(doc, &ty, index, s).unwrap();
    txn.commit(doc).unwrap()
}

fn all_items(doc: &Doc) -> Vec<Item> {
    doc.diff(&StateVector::new())
}

#[test]
fn scenario_text_travels_from_one_replica_to_another() {
    let mut a = Doc::new(1);
    let mut b = Doc::new(2);
    let update = write_text(&mut a, "t", 0, "hello");
    assert_eq!(text_of(&a, "t"), "hello");
    assert_eq!(b.apply_update(&update), Ok(()));
    assert_eq!(text_of(&b, "t"), "hello");

    let mut txn = Transaction::begin(&mut a).unwrap();
    let ty = txn.shared(&mut a, TypeKind::Text, &name("t")).unwrap();
    assert_eq!(txn.delete(&mut a, &ty, 0, 2), Ok(()));
    let update = txn.commit(&mut a).unwrap();
    assert_eq!(text_of(&a, "t"), "llo");
    assert_eq!(b.apply_update(&update), Ok(()));
    assert_eq!(text_of(&b, "t"), "llo");
}

#[test]
fn scenario_concurrent_inserts_converge() {
    let mut a = Doc::new(1);
    let mut b = Doc::new(2);
    let mut txn = Transaction::begin(&mut a).unwrap();
    let ty = txn.shared(&mut a, TypeKind::Array, &name("seq")).unwrap();
    let created = txn.commit(&mut a).unwrap();
    b.apply_update(&created).unwrap();
    assert_eq!(strings_of(&b, "seq"), Vec::<String>::new());

    let mut ta = Transaction::begin(&mut a).unwrap();
    ta.insert_value(&mut a, &ty, 0, Any::String(name("X"))).unwrap();
    let from_a = ta.commit(&mut a).unwrap();
    let mut tb = Transaction::begin(&mut b).unwrap();
    tb.insert_value(&mut b, &ty, 0, Any::String(name("Y"))).unwrap();
    let from_b = tb.commit(&mut b).unwrap();

    a.apply_update(&from_b).unwrap();
    b.apply_update(&from_a).unwrap();
    assert_eq!(strings_of(&a, "seq"), strings_of(&b, "seq"));
    assert_eq!(strings_of(&a, "seq"), vec![name("X"), name("Y")]);
    assert_eq!(all_items(&a), all_items(&b));
}

#[test]
fn merge_does_not_depend_on_the_order_of_two_updates() {
    let mut a = Doc::new(1);
    let mut b = Doc::new(2);
    let u1 = write_text(&mut a, "left", 0, "abc");
    let u2 = write_text(&mut b, "right", 0, "xyz");
    let mut c = Doc::new(3);
    let mut d = Doc::new(4);
    c.apply_update(&u1).unwrap();
    c.apply_update(&u2).unwrap();
    d.apply_update(&u2).unwrap();
    d.apply_update(&u1).unwrap();
    assert_eq!(text_of(&c, "left"), "abc");
    assert_eq!(text_of(&c, "right"), "xyz");
    assert_eq!(text_of(&d, "left"), "abc");
    assert_eq!(text_of(&d, "right"), "xyz");
    assert_eq!(all_items(&c), all_items(&d));
}

#[test]
fn applying_an_update_twice_changes_nothing() {
    let mut a = Doc::new(1);
    let mut b = Doc::new(2);
    let update = write_text(&mut a, "t", 0, "twice");
    b.apply_update(&update).unwrap();
    let once = all_items(&b);
    assert_eq!(b.apply_update(&update), Ok(()));
    assert_eq!(all_items(&b), once);
    assert_eq!(text_of(&b, "t"), "twice");
    assert_eq!(b.store.pending.len(), 0);
}

#[test]
fn a_tombstoned_character_does_not_come_back() {
    let mut a = Doc::new(1);
    let mut b = Doc::new(2);
    let first = write_text(&mut a, "t", 0, "abc");
    b.apply_update(&first).unwrap();
    let mut txn = Transaction::begin(&mut a).unwrap();
    let ty = txn.shared(&mut a, TypeKind::Text, &name("t")).unwrap();
    txn.delete(&mut a, &ty, 1, 1).unwrap();
    let removal = txn.commit(&mut a).unwrap();
    assert_eq!(text_of(&a, "t"), "ac");
    let more = write_text(&mut b, "t", 3, "d");
    a.apply_update(&more).unwrap();
    a.apply_update(&first).unwrap();
    assert_eq!(text_of(&a, "t"), "acd");
    b.apply_update(&removal).unwrap();
    b.apply_update(&first).unwrap();
    assert_eq!(text_of(&b, "t"), "acd");
    assert!(a.store.is_deleted(BlockId { replica: 1, clock: 2 }));
    assert!(b.store.is_deleted(BlockId { replica: 1, clock: 2 }));
}

#[test]
fn updates_out_of_order_wait_for_what_they_need() {
    let mut a = Doc::new(1);
    let first = write_text(&mut a, "t", 0, "ab");
    let second = write_text(&mut a, "t", 2, "cd");
    let mut b = Doc::new(2);
    assert_eq!(b.apply_update(&second), Ok(()));
    assert_eq!(b.find_type(TypeKind::Text, &name("t")), None);
    assert_eq!(b.store.pending.len(), 2);
    assert_eq!(b.apply_update(&first), Ok(()));
    assert_eq!(text_of(&b, "t"), "abcd");
    assert_eq!(b.store.pending.len(), 0);
}

#[test]
fn text_insert_in_the_middle_and_at_the_ends() {
    let mut a = Doc::new(7);
    write_text(&mut a, "t", 0, "ad");
    write_text(&mut a, "t", 1, "bc");
    assert_eq!(text_of(&a, "t"), "abcd");
    write_text(&mut a, "t", 4, "é☃");
    write_text(&mut a, "t", 0, ">");
    assert_eq!(text_of(&a, "t"), ">abcdé☃");
    write_text(&mut a, "t", 3, "");
    assert_eq!(text_of(&a, "t"), ">abcdé☃");
}

#[test]
fn text_insert_after_a_tombstone() {
    let mut a = Doc::new(1);
    write_text(&mut a, "t", 0, "abc");
    let ty = a.find_type(TypeKind::Text, &name("t")).unwrap();
    let mut txn = Transaction::begin(&mut a).unwrap();
    txn.delete(&mut a, &ty, 0, 1).unwrap();
    txn.insert_text(&mut a, &ty, 0, "x").unwrap();
    txn.insert_text(&mut a, &ty, 1, "y").unwrap();
    txn.commit(&mut a).unwrap();
    assert_eq!(text_of(&a, "t"), "xybc");
    assert_eq!(a.len(&ty), Ok(4));
}

#[test]
fn array_values_and_bounds() {
    let mut a = Doc::new(1);
    let mut txn = Transaction::begin(&mut a).unwrap();
    let ty = txn.shared(&mut a, TypeKind::Array, &name("list")).unwrap();
    assert_eq!(txn.insert_value(&mut a, &ty, 0, Any::Integer(1)), Ok(()));
    assert_eq!(txn.insert_value(&mut a, &ty, 1, Any::Integer(3)), Ok(()));
    assert_eq!(txn.insert_value(&mut a, &ty, 1, Any::Integer(2)), Ok(()));
    assert_eq!(
        txn.insert_value(&mut a, &ty, 4, Any::Integer(9)),
        Err(DocError::OutOfBounds)
    );
    assert_eq!(txn.delete(&mut a, &ty, 2, 2), Err(DocError::OutOfBounds));
    assert_eq!(txn.delete(&mut a, &ty, 3, 0), Ok(()));
    assert_eq!(
        a.values(&ty),
        Ok(vec![Any::Integer(1), Any::Integer(2), Any::Integer(3)])
    );
    assert_eq!(txn.delete(&mut a, &ty, 0, 3), Ok(()));
    assert_eq!(a.values(&ty), Ok(vec![]));
    txn.commit(&mut a).unwrap();
}

#[test]
fn content_must_fit_the_kind_of_the_type() {
    let mut a = Doc::new(1);
    let mut txn = Transaction::begin(&mut a).unwrap();
    let text = txn.shared(&mut a, TypeKind::Text, &name("t")).unwrap();
    let list = txn.shared(&mut a, TypeKind::Array, &name("l")).unwrap();
    assert_eq!(
        txn.insert_value(&mut a, &text, 0, Any::Null),
        Err(DocError::KindMismatch)
    );
    assert_eq!(txn.insert_text(&mut a, &list, 0, "x"), Err(DocError::KindMismatch));
    assert_eq!(
        txn.insert(&mut a, &list, 0, &vec![Content::Char('x')]),
        Err(DocError::KindMismatch)
    );
    assert_eq!(a.text(&list), Err(DocError::KindMismatch));
    assert_eq!(a.values(&text), Err(DocError::KindMismatch));
    txn.commit(&mut a).unwrap();
}

#[test]
fn unknown_handle_is_refused() {
    let mut a = Doc::new(1);
    let ghost = TypeRef { head: BlockId { replica: 5, clock: 5 }, kind: TypeKind::Text };
    assert_eq!(a.text(&ghost), Err(DocError::UnknownType));
    assert_eq!(a.len(&ghost), Err(DocError::UnknownType));
    assert_eq!(a.map_get(&ghost, &name("k")), Err(DocError::UnknownType));
    let mut txn = Transaction::begin(&mut a).unwrap();
    assert_eq!(txn.insert_text(&mut a, &ghost, 0, "x"), Err(DocError::UnknownType));
    assert_eq!(txn.delete(&mut a, &ghost, 0, 0), Err(DocError::UnknownType));
    assert_eq!(txn.map_delete(&mut a, &ghost, &name("k")), Err(DocError::UnknownType));
    let text = txn.shared(&mut a, TypeKind::Text, &name("t")).unwrap();
    let wrong = TypeRef { head: text.head, kind: TypeKind::Array };
    assert_eq!(a.values(&wrong), Err(DocError::UnknownType));
}

#[test]
fn map_last_writer_wins_and_delete() {
    let mut a = Doc::new(1);
    let mut txn = Transaction::begin(&mut a).unwrap();
    let ty = txn.shared(&mut a, TypeKind::Mapping, &name("m")).unwrap();
    assert_eq!(a.map_get(&ty, &name("k")), Ok(None));
    txn.map_set(&mut a, &ty, name("k"), Any::Integer(1)).unwrap();
    txn.map_set(&mut a, &ty, name("other"), Any::True).unwrap();
    txn.map_set(&mut a, &ty, name("k"), Any::Integer(2)).unwrap();
    assert_eq!(a.map_get(&ty, &name("k")), Ok(Some(Any::Integer(2))));
    assert_eq!(a.map_get(&ty, &name("other")), Ok(Some(Any::True)));
    assert_eq!(txn.map_delete(&mut a, &ty, &name("k")), Ok(()));
    assert_eq!(a.map_get(&ty, &name("k")), Ok(None));
    assert_eq!(a.map_get(&ty, &name("other")), Ok(Some(Any::True)));
    assert_eq!(txn.map_delete(&mut a, &ty, &name("absent")), Ok(()));
    let update = txn.commit(&mut a).unwrap();
    let mut b = Doc::new(2);
    b.apply_update(&update).unwrap();
    let tb = b.find_type(TypeKind::Mapping, &name("m")).unwrap();
    assert_eq!(tb, ty);
    assert_eq!(b.map_get(&tb, &name("k")), Ok(None));
    assert_eq!(b.map_get(&tb, &name("other")), Ok(Some(Any::True)));
}

#[test]
fn map_concurrent_writes_converge() {
    let mut a = Doc::new(1);
    let mut b = Doc::new(2);
    let mut txn = Transaction::begin(&mut a).unwrap();
    let ty = txn.shared(&mut a, TypeKind::Mapping, &name("m")).unwrap();
    let created = txn.commit(&mut a).unwrap();
    b.apply_update(&created).unwrap();
    let mut ta = Transaction::begin(&mut a).unwrap();
    ta.map_set(&mut a, &ty, name("k"), Any::Integer(1)).unwrap();
    let from_a = ta.commit(&mut a).unwrap();
    let mut tb = Transaction::begin(&mut b).unwrap();
    tb.map_set(&mut b, &ty, name("k"), Any::Integer(2)).unwrap();
    let from_b = tb.commit(&mut b).unwrap();
    a.apply_update(&from_b).unwrap();
    b.apply_update(&from_a).unwrap();
    assert_eq!(a.map_get(&ty, &name("k")), Ok(Some(Any::Integer(1))));
    assert_eq!(b.map_get(&ty, &name("k")), Ok(Some(Any::Integer(1))));
}

#[test]
fn transaction_states() {
    assert_eq!(step(TxnState::Open, TxnEvent::Edit), Some(TxnState::Open));
    assert_eq!(step(TxnState::Open, TxnEvent::Commit), Some(TxnState::Committing));
    assert_eq!(step(TxnState::Open, TxnEvent::Abort), Some(TxnState::Closed));
    assert_eq!(step(TxnState::Committing, TxnEvent::Encoded), Some(TxnState::Closed));
    assert_eq!(step(TxnState::Committing, TxnEvent::Edit), None);
    assert_eq!(step(TxnState::Closed, TxnEvent::Edit), None);
    assert_eq!(step(TxnState::Closed, TxnEvent::Commit), None);
    assert_eq!(step(TxnState::Open, TxnEvent::Encoded), None);
}

#[test]
fn one_transaction_at_a_time() {
    let mut a = Doc::new(1);
    let mut first = Transaction::begin(&mut a).unwrap();
    assert_eq!(Transaction::begin(&mut a).err(), Some(DocError::TransactionOpen));
    assert_eq!(a.apply_update(&[]), Err(UpdateError::TransactionOpen));
    assert_eq!(first.state, TxnState::Open);
    first.commit(&mut a).unwrap();
    assert_eq!(first.state, TxnState::Closed);
    assert!(Transaction::begin(&mut a).is_ok());
}

#[test]
fn closed_transaction_takes_no_edit() {
    let mut a = Doc::new(1);
    let mut txn = Transaction::begin(&mut a).unwrap();
    let ty = txn.shared(&mut a, TypeKind::Text, &name("t")).unwrap();
    txn.commit(&mut a).unwrap();
    assert_eq!(txn.insert_text(&mut a, &ty, 0, "x"), Err(DocError::TransactionClosed));
    assert_eq!(txn.delete(&mut a, &ty, 0, 0), Err(DocError::TransactionClosed));
    assert_eq!(
        txn.shared(&mut a, TypeKind::Text, &name("t")),
        Err(DocError::TransactionClosed)
    );
    assert_eq!(txn.commit(&mut a), Err(DocError::TransactionClosed));
    assert_eq!(txn.abort(&mut a), Err(DocError::TransactionClosed));
    assert_eq!(text_of(&a, "t"), "");
    let mut other = Transaction::begin(&mut a).unwrap();
    assert_eq!(other.abort(&mut a), Ok(()));
    assert_eq!(other.insert_text(&mut a, &ty, 0, "x"), Err(DocError::TransactionClosed));
    assert!(!a.busy);
}

#[test]
fn malformed_update_leaves_the_document_as_it_was() {
    let mut a = Doc::new(1);
    let update = write_text(&mut a, "t", 0, "hello");
    let mut b = Doc::new(2);
    let mut cut = update.clone();
    cut.pop();
    assert_eq!(b.apply_update(&cut), Err(UpdateError::Codec(CodecError::Truncated)));
    assert_eq!(all_items(&b), vec![]);
    assert_eq!(b.store.pending.len(), 0);
    let mut bad = update.clone();
    bad[3] = 99;
    assert_eq!(b.apply_update(&bad), Err(UpdateError::Codec(CodecError::InvalidTag)));
    assert_eq!(all_items(&b), vec![]);
    assert_eq!(b.apply_update(&update), Ok(()));
    assert_eq!(text_of(&b, "t"), "hello");
}

#[test]
fn update_that_would_overfill_the_waiting_room_is_refused() {
    let mut a = Doc::new(1);
    let first = write_text(&mut a, "t", 0, "ab");
    let second = write_text(&mut a, "t", 2, "cd");
    let mut b = Doc::with_pending_limit(2, 1);
    assert_eq!(b.apply_update(&second), Err(UpdateError::PendingFull));
    assert_eq!(b.store.pending.len(), 0);
    let mut c = Doc::with_pending_limit(3, 3);
    assert_eq!(c.apply_update(&first), Ok(()));
    assert_eq!(c.apply_update(&second), Ok(()));
    assert_eq!(text_of(&c, "t"), "abcd");
}

#[test]
fn update_exact_bytes() {
    let items = vec![Item {
        id: BlockId { replica: 1, clock: 0 },
        left: None,
        right: None,
        content: Content::Marker(TypeKind::Text, name("t")),
    }];
    let bytes = encode_update(&items);
    assert_eq!(bytes, vec![1u8, 0, 1, 4, 0, 0, 1, 2, 1, 116]);
    assert_eq!(decode_update(&bytes), Ok(items));
}

#[test]
fn update_groups_items_that_follow_one_another() {
    let head = BlockId { replica: 1, clock: 0 };
    let items = vec![
        Item { id: head, left: None, right: None, content: Content::Marker(TypeKind::Text, name("t")) },
        Item { id: BlockId { replica: 1, clock: 1 }, left: Some(head), right: None, content: Content::Char('a') },
        Item { id: BlockId { replica: 2, clock: 5 }, left: None, right: None, content: Content::Delete(head) },
    ];
    let bytes = encode_update(&items);
    assert_eq!(
        bytes,
        vec![1u8, 0, 2, 4, 0, 0, 1, 2, 1, 116, 2, 1, 1, 0, 0, 1, 97, 2, 5, 1, 5, 0, 0, 1, 1, 0]
    );
    assert_eq!(decode_update(&bytes), Ok(items));
}

#[test]
fn update_round_trips_every_content() {
    let id = |replica, clock| BlockId { replica, clock };
    let items = vec![
        Item { id: id(3, 0), left: None, right: None, content: Content::Marker(TypeKind::Mapping, name("m")) },
        Item {
            id: id(3, 1),
            left: Some(id(3, 0)),
            right: None,
            content: Content::Entry(name("k"), Any::Array(vec![Any::Integer(-5)])),
        },
        Item { id: id(3, 2), left: Some(id(3, 0)), right: Some(id(3, 1)), content: Content::Value(Any::Null) },
        Item { id: id(9, u64::MAX), left: None, right: None, content: Content::Char('☃') },
        Item { id: id(9, 0), left: None, right: None, content: Content::Delete(id(3, 1)) },
        Item { id: id(4, 7), left: None, right: None, content: Content::Marker(TypeKind::Array, name("")) },
    ];
    assert_eq!(decode_update(&encode_update(&items)), Ok(items));
    assert_eq!(decode_update(&encode_update(&vec![])), Ok(vec![]));
    assert_eq!(encode_update(&vec![]), Vec::<u8>::new());
}

#[test]
fn update_span_on_the_wire_becomes_items_one_behind_the_other() {
    let bytes = vec![7u8, 0, 1, 2, 0, 1, 8, 8, 2, 97, 98];
    let a = BlockId { replica: 7, clock: 0 };
    let b = BlockId { replica: 7, clock: 1 };
    let right = Some(BlockId { replica: 8, clock: 8 });
    assert_eq!(
        decode_update(&bytes),
        Ok(vec![
            Item { id: a, left: None, right, content: Content::Char('a') },
            Item { id: b, left: Some(a), right, content: Content::Char('b') },
        ])
    );
    assert_eq!(decode_update(&[7u8, 0, 1, 2, 0, 0, 0]), Ok(vec![]));
}

#[test]
fn update_decode_errors() {
    assert_eq!(decode_update(&[1u8]), Err(CodecError::Truncated));
    assert_eq!(decode_update(&[1u8, 0, 1]), Err(CodecError::Truncated));
    assert_eq!(decode_update(&[1u8, 0, 1, 0]), Err(CodecError::InvalidTag));
    assert_eq!(decode_update(&[1u8, 0, 1, 6]), Err(CodecError::InvalidTag));
    assert_eq!(decode_update(&[1u8, 0, 1, 2, 2]), Err(CodecError::InvalidTag));
    assert_eq!(decode_update(&[1u8, 0, 1, 4, 0, 0, 1, 3]), Err(CodecError::InvalidTag));
    assert_eq!(
        decode_update(&[1u8, 0, 1, 2, 0, 0, 1, 0x80, 0xB0, 0x03]),
        Err(CodecError::InvalidUtf8)
    );
    assert_eq!(
        decode_update(&[1u8, 0, 1, 2, 0, 0, 1, 0x80, 0x80, 0x80, 0x01]),
        Err(CodecError::InvalidUtf8)
    );
    assert_eq!(decode_update(&[1u8, 0, 1, 2, 0, 0, 2, 97]), Err(CodecError::Truncated));
}

#[test]
fn state_vector_and_diff() {
    let mut a = Doc::new(1);
    let mut b = Doc::new(2);
    let first = write_text(&mut a, "t", 0, "ab");
    b.apply_update(&first).unwrap();
    write_text(&mut a, "t", 2, "cd");
    write_text(&mut b, "t", 0, "z");
    let sa = a.state_vector();
    let sb = b.state_vector();
    assert_eq!(sa.get(1), 5);
    assert_eq!(sa.get(2), 0);
    assert_eq!(sb.get(1), 3);
    assert_eq!(sb.get(2), 1);
    let for_b = a.diff(&sb);
    let for_a = b.diff(&sa);
    assert_eq!(for_b.len(), 2);
    assert_eq!(for_a.len(), 1);
    b.apply_update(&encode_update(&for_b)).unwrap();
    a.apply_update(&encode_update(&for_a)).unwrap();
    assert_eq!(text_of(&a, "t"), text_of(&b, "t"));
    assert_eq!(text_of(&a, "t"), "zabcd");
    assert_eq!(a.diff(&b.state_vector()), vec![]);
    assert_eq!(a.next_clock(), 5);
}

#[test]
fn state_vector_exact_bytes() {
    let mut sv = StateVector::new();
    sv.set(1, 5);
    sv.set(300, 2);
    let bytes = sv.encode();
    assert_eq!(bytes, vec![2u8, 1, 5, 0xAC, 0x02, 2]);
    let back = StateVector::decode(&bytes).unwrap();
    assert_eq!(back.get(1), 5);
    assert_eq!(back.get(300), 2);
    assert_eq!(back.get(2), 0);
    assert_eq!(StateVector::decode(&[2u8, 1, 5]).err(), Some(CodecError::Truncated));
    assert_eq!(StateVector::decode(&[]).err(), Some(CodecError::Truncated));
    assert_eq!(StateVector::new().encode(), vec![0u8]);
}

#[test]
fn state_vector_set_replaces() {
    let mut sv = StateVector::new();
    sv.set(4, 1);
    sv.set(4, 9);
    assert_eq!(sv.get(4), 9);
}

#[test]
fn blocked_when_a_waiting_item_speaks_of_the_next_identity() {
    let mut a = Doc::new(1);
    let waiting = Item {
        id: BlockId { replica: 9, clock: 0 },
        left: Some(BlockId { replica: 1, clock: 0 }),
        right: None,
        content: Content::Char('x'),
    };
    assert_eq!(a.apply_update(&encode_update(&vec![waiting])), Ok(()));
    assert_eq!(a.store.pending.len(), 1);
    let mut txn = Transaction::begin(&mut a).unwrap();
    assert_eq!(
        txn.shared(&mut a, TypeKind::Text, &name("t")),
        Err(DocError::Blocked)
    );
    assert_eq!(a.store.nodes.len(), 0);
}

#[test]
fn first_type_of_a_name_is_found() {
    let mut a = Doc::new(2);
    let mut b = Doc::new(1);
    let ua = write_text(&mut a, "t", 0, "from two");
    let ub = write_text(&mut b, "t", 0, "from one");
    a.apply_update(&ub).unwrap();
    b.apply_update(&ua).unwrap();
    assert_eq!(text_of(&a, "t"), "from one");
    assert_eq!(text_of(&b, "t"), "from one");
    assert_eq!(a.find_type(TypeKind::Array, &name("t")), None);
}

#[test]
fn editing_one_type_leaves_the_others_alone() {
    let mut a = Doc::new(1);
    write_text(&mut a, "one", 0, "first");
    write_text(&mut a, "two", 0, "second");
    let one = a.find_type(TypeKind::Text, &name("one")).unwrap();
    let two = a.find_type(TypeKind::Text, &name("two")).unwrap();
    let mut txn = Transaction::begin(&mut a).unwrap();
    txn.insert_text(&mut a, &one, 5, "!").unwrap();
    txn.delete(&mut a, &one, 0, 1).unwrap();
    let list = txn.shared(&mut a, TypeKind::Array, &name("three")).unwrap();
    txn.insert_value(&mut a, &list, 0, Any::Null).unwrap();
    txn.commit(&mut a).unwrap();
    assert_eq!(a.text(&one), Ok(name("irst!")));
    assert_eq!(a.text(&two), Ok(name("second")));
    assert_eq!(a.values(&list), Ok(vec![Any::Null]));
    assert_eq!(a.find_type(TypeKind::Text, &name("two")), Some(two));
}

#[test]
fn document_from_an_update() {
    let mut a = Doc::new(1);
    let update = write_text(&mut a, "t", 0, "abc");
    let b = Doc::from_update(2, &update).ok().unwrap();
    assert_eq!(b.replica, 2);
    assert_eq!(text_of(&b, "t"), "abc");
    assert_eq!(
        Doc::from_update(2, &[1u8, 0]).err(),
        Some(UpdateError::Codec(CodecError::Truncated))
    );
}

#[test]
fn apply_items_passes_over_what_is_known() {
    let mut a = Doc::new(1);
    write_text(&mut a, "t", 0, "ab");
    let mut b = Doc::new(2);
    b.apply_items(all_items(&a));
    b.apply_items(all_items(&a));
    assert_eq!(text_of(&b, "t"), "ab");
    assert_eq!(all_items(&b), all_items(&a));
}

#[test]
fn update_chained_characters_share_a_wire_item() {
    let head = BlockId { replica: 1, clock: 0 };
    let h = BlockId { replica: 1, clock: 1 };
    let i = BlockId { replica: 1, clock: 2 };
    let items = vec![
        Item { id: head, left: None, right: None, content: Content::Marker(TypeKind::Text, name("t")) },
        Item { id: h, left: Some(head), right: None, content: Content::Char('h') },
        Item { id: i, left: Some(h), right: None, content: Content::Char('i') },
    ];
    let bytes = encode_update(&items);
    assert_eq!(
        bytes,
        vec![1u8, 0, 2, 4, 0, 0, 1, 2, 1, 116, 2, 1, 1, 0, 0, 2, 104, 105]
    );
    assert_eq!(decode_update(&bytes), Ok(items));
}

#[test]
fn update_of_a_text_is_short() {
    let mut a = Doc::new(1);
    let update = write_text(&mut a, "t", 0, "hello");
    assert_eq!(
        update,
        vec![1u8, 0, 2, 4, 0, 0, 1, 2, 1, 116, 2, 1, 1, 0, 0, 5, 104, 101, 108, 108, 111]
    );
}

#[test]
fn update_items_with_other_origins_do_not_share_a_wire_item() {
    let head = BlockId { replica: 1, clock: 0 };
    let a = BlockId { replica: 1, clock: 1 };
    let b = BlockId { replica: 1, clock: 2 };
    let items = vec![
        Item { id: head, left: None, right: None, content: Content::Marker(TypeKind::Text, name("t")) },
        Item { id: a, left: Some(head), right: None, content: Content::Char('a') },
        Item { id: b, left: Some(head), right: Some(a), content: Content::Char('b') },
    ];
    let bytes = encode_update(&items);
    assert_eq!(
        bytes,
        vec![
            1u8, 0, 3, 4, 0, 0, 1, 2, 1, 116, 2, 1, 1, 0, 0, 1, 97, 2, 1, 1, 0, 1, 1, 1, 1, 98
        ]
    );
    assert_eq!(decode_update(&bytes), Ok(items));
}

fn flags(doc: &Doc) -> Vec<(BlockId, bool)> {
    doc.store.nodes.iter().map(|n| (n.item.id, n.deleted)).collect()
}

#[test]
fn merge_with_tombstones_does_not_depend_on_the_order() {
    let mut a = Doc::new(1);
    let mut b = Doc::new(2);
    let mut ta = Transaction::begin(&mut a).unwrap();
    let left = ta.shared(&mut a, TypeKind::Text, &name("t")).unwrap();
    ta.insert_text(&mut a, &left, 0, "abcd").unwrap();
    ta.delete(&mut a, &left, 1, 2).unwrap();
    ta.insert_text(&mut a, &left, 1, "x").unwrap();
    let u1 = ta.commit(&mut a).unwrap();
    let mut tb = Transaction::begin(&mut b).unwrap();
    let right = tb.shared(&mut b, TypeKind::Mapping, &name("m")).unwrap();
    tb.map_set(&mut b, &right, name("k"), Any::Integer(1)).unwrap();
    tb.map_set(&mut b, &right, name("k"), Any::Integer(2)).unwrap();
    tb.map_delete(&mut b, &right, &name("k")).unwrap();
    tb.map_set(&mut b, &right, name("k"), Any::Integer(3)).unwrap();
    let u2 = tb.commit(&mut b).unwrap();

    let mut c = Doc::new(3);
    let mut d = Doc::new(4);
    c.apply_update(&u1).unwrap();
    c.apply_update(&u2).unwrap();
    d.apply_update(&u2).unwrap();
    d.apply_update(&u1).unwrap();
    assert_eq!(flags(&c), flags(&d));
    assert_eq!(all_items(&c), all_items(&d));
    assert_eq!(c.text(&left), Ok(name("axd")));
    assert_eq!(d.text(&left), Ok(name("axd")));
    assert_eq!(c.map_get(&right, &name("k")), Ok(Some(Any::Integer(3))));
    assert_eq!(d.map_get(&right, &name("k")), Ok(Some(Any::Integer(3))));
    assert_eq!(c.store.pending.len(), 0);
    assert_eq!(d.store.pending.len(), 0);
}

#[test]
fn applying_a_waiting_update_twice_changes_nothing() {
    let mut a = Doc::new(1);
    write_text(&mut a, "t", 0, "ab");
    let second = write_text(&mut a, "t", 2, "cd");
    let mut b = Doc::new(2);
    b.apply_update(&second).unwrap();
    let waiting = b.store.pending.len();
    assert_eq!(waiting, 2);
    assert_eq!(b.apply_update(&second), Ok(()));
    assert_eq!(b.store.pending.len(), waiting);
    assert_eq!(flags(&b), vec![]);
}

#[test]
fn two_replicas_writing_into_one_text_converge() {
    let mut a = Doc::new(1);
    let mut b = Doc::new(2);
    let base = write_text(&mut a, "t", 0, "base");
    b.apply_update(&base).unwrap();
    let mut ta = Transaction::begin(&mut a).unwrap();
    let ty = ta.shared(&mut a, TypeKind::Text, &name("t")).unwrap();
    ta.insert_text(&mut a, &ty, 2, "AA").unwrap();
    ta.delete(&mut a, &ty, 0, 1).unwrap();
    let u1 = ta.commit(&mut a).unwrap();
    let mut tb = Transaction::begin(&mut b).unwrap();
    tb.insert_text(&mut b, &ty, 2, "BB").unwrap();
    tb.delete(&mut b, &ty, 3, 1).unwrap();
    tb.insert_text(&mut b, &ty, 0, ">").unwrap();
    let u2 = tb.commit(&mut b).unwrap();

    let mut c = Doc::new(3);
    let mut d = Doc::new(4);
    c.apply_update(&base).unwrap();
    d.apply_update(&base).unwrap();
    c.apply_update(&u1).unwrap();
    c.apply_update(&u2).unwrap();
    d.apply_update(&u2).unwrap();
    d.apply_update(&u1).unwrap();
    a.apply_update(&u2).unwrap();
    b.apply_update(&u1).unwrap();
    assert_eq!(flags(&c), flags(&d));
    assert_eq!(flags(&a), flags(&c));
    assert_eq!(flags(&b), flags(&c));
    assert_eq!(text_of(&c, "t"), text_of(&d, "t"));
    assert_eq!(text_of(&a, "t"), text_of(&b, "t"));
    assert_eq!(text_of(&c, "t").len(), 4 + 2 + 2 + 1 - 2);
}
