use hamt::store::{Effect, EntityId, Item, SegmentStore, TxEvent, Value};

#[test]
fn store_basic() {
    let mut store = SegmentStore::new();
    let item = Item::KeyValue(Value::String("hey".into()), TxEvent(EntityId(1), Effect::Add));
    let item_ref = store.push(item.clone());
    assert_eq!(item, *item_ref.deref());
}
