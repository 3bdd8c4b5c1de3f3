use octo_doc::any::Any;
use octo_doc::item::{BlockId, Content, Item};
use octo_doc::store::{BlockStore, StoreError};

fn id(replica: u64, clock: u64) -> BlockId {
    BlockId { replica, clock }
}

fn value(replica: u64, clock: u64, left: Option<BlockId>, right: Option<BlockId>, n: i32) -> Item {
    Item { id: id(replica, clock), left, right, content: Content::Value(Any::Integer(n)) }
}

fn order(store: &BlockStore) -> Vec<BlockId> {
    store.nodes.iter().map(|n| n.item.id).collect()
}

#[test]
fn store_insert_and_get() {
    let mut store = BlockStore::new(8);
    assert_eq!(store.insert(value(1, 0, None, None, 10)), Ok(()));
    assert_eq!(store.get(id(1, 0)), Some(value(1, 0, None, None, 10)));
    assert_eq!(store.get(id(1, 1)), None);
    assert_eq!(store.find(id(1, 0)), Some(0));
    assert!(!store.is_deleted(id(1, 0)));
}

#[test]
fn store_duplicate_is_refused() {
    let mut store = BlockStore::new(8);
    assert_eq!(store.insert(value(1, 0, None, None, 1)), Ok(()));
    assert_eq!(store.insert(value(1, 0, None, None, 2)), Err(StoreError::Duplicate));
    assert_eq!(store.get(id(1, 0)), Some(value(1, 0, None, None, 1)));
    assert_eq!(store.nodes.len(), 1);
}

#[test]
fn store_item_waits_for_its_origin() {
    let mut store = BlockStore::new(8);
    let a = value(1, 0, None, None, 1);
    let b = value(2, 0, Some(id(1, 0)), None, 2);
    assert!(!store.is_ready(&b));
    assert_eq!(store.insert(b), Ok(()));
    assert!(store.is_waiting(id(2, 0)));
    assert_eq!(store.get(id(2, 0)), None);
    assert_eq!(store.insert(a), Ok(()));
    assert!(!store.is_waiting(id(2, 0)));
    assert_eq!(order(&store), vec![id(1, 0), id(2, 0)]);
    assert_eq!(store.pending.len(), 0);
}

#[test]
fn store_item_waits_for_its_forerunner_on_the_clock() {
    let mut store = BlockStore::new(8);
    assert_eq!(store.insert(value(1, 2, None, None, 3)), Ok(()));
    assert_eq!(store.insert(value(1, 1, None, None, 2)), Ok(()));
    assert_eq!(store.nodes.len(), 0);
    assert_eq!(store.pending.len(), 2);
    assert_eq!(store.insert(value(1, 0, None, None, 1)), Ok(()));
    assert_eq!(store.nodes.len(), 3);
    assert_eq!(store.pending.len(), 0);
}

#[test]
fn store_waiting_item_is_a_duplicate_too() {
    let mut store = BlockStore::new(8);
    assert_eq!(store.insert(value(2, 0, Some(id(1, 0)), None, 2)), Ok(()));
    assert_eq!(
        store.insert(value(2, 0, Some(id(1, 0)), None, 2)),
        Err(StoreError::Duplicate)
    );
}

#[test]
fn store_waiting_room_full() {
    let mut store = BlockStore::new(1);
    assert_eq!(store.insert(value(2, 0, Some(id(1, 0)), None, 2)), Ok(()));
    assert_eq!(
        store.insert(value(3, 0, Some(id(1, 0)), None, 3)),
        Err(StoreError::PendingFull)
    );
    assert_eq!(store.pending.len(), 1);
    let mut none = BlockStore::new(0);
    assert_eq!(
        none.insert(value(3, 0, Some(id(1, 0)), None, 3)),
        Err(StoreError::PendingFull)
    );
    assert_eq!(none.insert(value(1, 0, None, None, 1)), Ok(()));
}

#[test]
fn store_children_of_one_origin_are_ordered_by_replica() {
    let mut a = BlockStore::new(8);
    let mut b = BlockStore::new(8);
    let head = || value(1, 0, None, None, 0);
    let x = || value(2, 0, Some(id(1, 0)), None, 1);
    let y = || value(3, 0, Some(id(1, 0)), None, 2);
    a.insert(head()).unwrap();
    a.insert(x()).unwrap();
    a.insert(y()).unwrap();
    b.insert(head()).unwrap();
    b.insert(y()).unwrap();
    b.insert(x()).unwrap();
    assert_eq!(order(&a), vec![id(1, 0), id(2, 0), id(3, 0)]);
    assert_eq!(order(&a), order(&b));
}

#[test]
fn store_item_written_in_front_of_a_known_sibling_comes_first() {
    let mut store = BlockStore::new(8);
    store.insert(value(1, 0, None, None, 0)).unwrap();
    store.insert(value(2, 0, Some(id(1, 0)), None, 1)).unwrap();
    store
        .insert(value(3, 0, Some(id(1, 0)), Some(id(2, 0)), 2))
        .unwrap();
    assert_eq!(order(&store), vec![id(1, 0), id(3, 0), id(2, 0)]);
    assert_eq!(store.nodes[1].prio, 1);
    assert_eq!(store.nodes[2].prio, 0);
    assert_eq!(store.nodes[1].level, 1);
}

#[test]
fn store_descendants_stay_with_their_parent() {
    let mut store = BlockStore::new(8);
    store.insert(value(1, 0, None, None, 0)).unwrap();
    store.insert(value(2, 0, Some(id(1, 0)), None, 1)).unwrap();
    store.insert(value(2, 1, Some(id(2, 0)), None, 2)).unwrap();
    store.insert(value(3, 0, Some(id(1, 0)), None, 3)).unwrap();
    store.insert(value(1, 1, Some(id(1, 0)), None, 4)).unwrap();
    assert_eq!(
        order(&store),
        vec![id(1, 0), id(1, 1), id(2, 0), id(2, 1), id(3, 0)]
    );
}

#[test]
fn store_tombstone_flags_its_target() {
    let mut store = BlockStore::new(8);
    store.insert(value(1, 0, None, None, 0)).unwrap();
    let tomb = Item { id: id(2, 0), left: None, right: None, content: Content::Delete(id(1, 0)) };
    assert_eq!(store.insert(tomb), Ok(()));
    assert!(store.is_deleted(id(1, 0)));
    assert!(!store.is_deleted(id(2, 0)));
}

#[test]
fn store_tombstone_for_an_unknown_item_waits_for_it() {
    let mut store = BlockStore::new(8);
    let tomb = Item { id: id(2, 0), left: None, right: None, content: Content::Delete(id(9, 0)) };
    assert_eq!(store.insert(tomb), Ok(()));
    assert!(!store.is_deleted(id(9, 0)));
    assert_eq!(store.get(id(9, 0)), None);
    store.insert(value(9, 0, None, None, 5)).unwrap();
    assert!(store.is_deleted(id(9, 0)));
}

#[test]
fn store_last_clock_is_never_ready() {
    let mut store = BlockStore::new(8);
    let item = value(1, u64::MAX, None, None, 0);
    assert!(!store.is_ready(&item));
    assert_eq!(store.insert(item), Ok(()));
    assert!(store.is_waiting(id(1, u64::MAX)));
}

#[test]
fn store_iter_causal_order_gives_what_lies_below_the_root() {
    let mut store = BlockStore::new(8);
    store.insert(value(1, 0, None, None, 0)).unwrap();
    store.insert(value(2, 0, Some(id(1, 0)), None, 1)).unwrap();
    store.insert(value(2, 1, Some(id(2, 0)), None, 2)).unwrap();
    store.insert(value(3, 0, Some(id(1, 0)), None, 3)).unwrap();
    store.insert(value(4, 0, None, None, 4)).unwrap();
    let tomb = Item { id: id(5, 0), left: None, right: None, content: Content::Delete(id(2, 1)) };
    store.insert(tomb).unwrap();
    let below = |root: BlockId| -> Option<Vec<BlockId>> {
        store.iter_causal_order(root).map(|items| items.iter().map(|x| x.id).collect())
    };
    assert_eq!(below(id(1, 0)), Some(vec![id(2, 0), id(2, 1), id(3, 0)]));
    assert_eq!(below(id(2, 0)), Some(vec![id(2, 1)]));
    assert_eq!(below(id(3, 0)), Some(vec![]));
    assert_eq!(below(id(4, 0)), Some(vec![]));
    assert_eq!(below(id(9, 9)), None);
    assert!(store.is_deleted(id(2, 1)));
}
