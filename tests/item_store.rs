use hamt::item_store::ItemStore;
use hamt::segmented_store::SegmentedItemStore;

#[test]
fn item_store_basic() {
    let mut store = SegmentedItemStore::new();
    let item = 42;
    let item_ref = store.push(item);
    assert_eq!(&item, item_ref.borrow());
}

#[test]
fn tests_basic() {
    let mut store = ItemStore::new();
    let item = 42;
    let item_ref = store.push(item);
    assert_eq!(&item, item_ref.as_ref());
}

#[test]
fn earlier_references_survive_later_pushes() {
    let mut store = ItemStore::new();
    let first = store.push("a".to_string());
    let second = store.push("b".to_string());
    assert_eq!("a", first.as_ref());
    assert_eq!("b", second.as_ref());
}
