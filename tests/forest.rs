use hamt::element_map::ElementMap;
use hamt::error::StoreError;
use hamt::forest::{KvForest, RootIndex};
use hamt::stash::{ElementStash, ElementStoreIndex, Record};
use hamt::trie::{Draft, DirectElementList, Element, ElementData, Trie};

fn reopen(forest: &KvForest) -> KvForest {
    let bytes = forest.stash().bytes_from(0);
    KvForest::open(&bytes).expect("reopen")
}

fn size(forest: &KvForest, index: RootIndex) -> usize {
    let trie = forest.trie(index).expect("trie at index");
    trie.size(forest.stash()).expect("size")
}

fn find(forest: &KvForest, index: RootIndex, key: u32) -> Option<u32> {
    let trie = forest.trie(index).expect("trie at index");
    trie.find(forest.stash(), &key).expect("find")
}

#[test]
fn basic() {
    let forest = KvForest::create();
    assert_eq!(1, forest.stash().len());
    let bytes = forest.stash().bytes_from(0);
    assert_eq!(vec![0u8; 8], bytes);
    KvForest::open(&bytes).expect("open");
}

#[test]
fn stash_basic() {
    let mut stash = ElementStash::new();
    assert_eq!(0, stash.len());
    let index = stash
        .append(&[Record { left: 1, right: 1 }, Record { left: 2, right: 2 }])
        .expect("append");
    assert_eq!(2, stash.len());
    assert_eq!(ElementStoreIndex(0), index);
    let bytes = stash.bytes_from(0);
    assert_eq!(vec![0, 0, 0, 1, 0, 0, 0, 1, 0, 0, 0, 2, 0, 0, 0, 2], bytes);
    let reopened = ElementStash::from_bytes(&bytes).expect("reopen");
    assert_eq!(2, reopened.len());
    assert_eq!(Ok(Record { left: 1, right: 1 }), reopened.read(ElementStoreIndex(0)));
    assert_eq!(Ok(Record { left: 2, right: 2 }), reopened.read(ElementStoreIndex(1)));
    assert_eq!(Err(StoreError::Corrupt), reopened.read(ElementStoreIndex(2)));
    assert_eq!(Err(StoreError::Corrupt), ElementStash::from_bytes(&bytes[..15]).map(|s| s.len()));
}

#[test]
fn insertion_insert_two_keys_with_same_prefix_and_depth_and_two_more_at_lower_depth_finds_all_four_values() {
    let mut forest = KvForest::create();
    let index = forest.add_root().expect("index");
    let index = forest.push(index, 0b000000000100000, 1).expect("push");
    let index = forest.push(index, 0b000000001000000, 2).expect("push");
    let index = forest.push(index, 0b000000001000001, 3).expect("push");
    let index = forest.push(index, 0b000000001000010, 4).expect("push");
    assert_eq!(4, size(&forest, index));
    assert_eq!(Some(1), find(&forest, index, 0b000000000100000));
    assert_eq!(Some(2), find(&forest, index, 0b000000001000000));
    assert_eq!(Some(3), find(&forest, index, 0b000000001000001));
    assert_eq!(Some(4), find(&forest, index, 0b000000001000010));
    assert_eq!(None, find(&forest, index, 0));
}

#[test]
fn insertion_insert_two_keys_with_same_prefix_and_depth_and_third_at_lower_depth_finds_all_three_values() {
    let mut forest = KvForest::create();
    let index = forest.add_root().expect("index");
    let index = forest.push(index, 0b000000000100000, 1).expect("push");
    let index = forest.push(index, 0b000000001000000, 2).expect("push");
    let index = forest.push(index, 0b000000001000001, 3).expect("push");
    assert_eq!(3, size(&forest, index));
    assert_eq!(Some(1), find(&forest, index, 0b000000000100000));
    assert_eq!(Some(2), find(&forest, index, 0b000000001000000));
    assert_eq!(Some(3), find(&forest, index, 0b000000001000001));
    assert_eq!(None, find(&forest, index, 0));
}

#[test]
fn insertion_insert_three_keys_with_same_prefix_and_depth_finds_all_three_values() {
    let mut store = KvForest::create();
    let index = store.add_root().expect("index");
    let index = store.push(index, 0b000000000100000, 1).expect("push");
    let index = store.push(index, 0b000000001000000, 2).expect("push");
    let index = store.push(index, 0b000000001100000, 3).expect("push");
    assert_eq!(3, size(&store, index));
    assert_eq!(Some(1), find(&store, index, 0b000000000100000));
    assert_eq!(Some(2), find(&store, index, 0b000000001000000));
    assert_eq!(Some(3), find(&store, index, 0b000000001100000));
    assert_eq!(None, find(&store, index, 0));
}

#[test]
fn insertion_insert_two_keys_with_same_prefix_and_depth_finds_both_values() {
    let mut store = KvForest::create();
    let index = store.add_root().expect("index");
    let index = store.push(index, 0b000000000100000, 1).expect("push");
    let index = store.push(index, 0b000000001000000, 2).expect("push");
    assert_eq!(2, size(&store, index));
    assert_eq!(Some(1), find(&store, index, 0b000000000100000));
    assert_eq!(Some(2), find(&store, index, 0b000000001000000));
    assert_eq!(None, find(&store, index, 0));
}

#[test]
fn insertion_insert_two_keys_on_different_paths_finds_both_values() {
    let mut store = KvForest::create();
    let index = store.add_root().expect("index");
    let index = store.push(index, 0b000000000100000, 1).expect("push");
    let index = store.push(index, 0b000010000100000, 33).expect("push");
    assert_eq!(2, size(&store, index));
    assert_eq!(Some(1), find(&store, index, 0b000000000100000));
    assert_eq!(Some(33), find(&store, index, 0b000010000100000));
    assert_eq!(None, find(&store, index, 0));
}

#[test]
fn insertion_insert_same_key_finds_last_value() {
    let mut store = KvForest::create();
    let index = store.add_root().expect("index");
    let index = store.push(index, 0b000010000000000, 1).expect("push");
    let index = store.push(index, 0b000010000000000, 2).expect("push");
    assert_eq!(1, size(&store, index));
    assert_eq!(Some(2), find(&store, index, 0b000010000000000));
    assert_eq!(None, find(&store, index, 0));
}

#[test]
fn insertion_insert_value_finds_value() {
    let mut store = KvForest::create();
    let index = store.add_root().expect("index");
    let index = store.push(index, 0b000010000000000, 1).expect("push");
    assert_eq!(1, size(&store, index));
    assert_eq!(Some(1), find(&store, index, 0b000010000000000));
    assert_eq!(None, find(&store, index, 0));
}

#[test]
fn tests_insert_two_keys_with_same_prefix_and_depth_and_two_more_at_lower_depth_finds_all_four_values() {
    let mut store = KvForest::create();
    let root = store.add_root().expect("root");
    let root = store.push(root, 0b000000000100000, 1).expect("push");
    let root = store.push(root, 0b000000001000000, 2).expect("push");
    let root = store.push(root, 0b000000001000001, 3).expect("push");
    let root = store.push(root, 0b000000001000010, 4).expect("push");
    assert_eq!(Ok(4), store.size(root));
    assert_eq!(Ok(Some(1)), store.find(root, &0b000000000100000));
    assert_eq!(Ok(Some(2)), store.find(root, &0b000000001000000));
    assert_eq!(Ok(Some(3)), store.find(root, &0b000000001000001));
    assert_eq!(Ok(Some(4)), store.find(root, &0b000000001000010));
    assert_eq!(Ok(None), store.find(root, &0));
}

#[test]
fn tests_insert_two_keys_with_same_prefix_and_depth_and_third_at_lower_depth_finds_all_three_values() {
    let mut store = KvForest::create();
    let root = store.add_root().expect("root");
    let root = store.push(root, 0b000000000100000, 1).expect("push");
    let root = store.push(root, 0b000000001000000, 2).expect("push");
    let root = store.push(root, 0b000000001000001, 3).expect("push");
    assert_eq!(Ok(3), store.size(root));
    assert_eq!(Ok(Some(1)), store.find(root, &0b000000000100000));
    assert_eq!(Ok(Some(2)), store.find(root, &0b000000001000000));
    assert_eq!(Ok(Some(3)), store.find(root, &0b000000001000001));
    assert_eq!(Ok(None), store.find(root, &0));
}

#[test]
fn tests_insert_three_keys_with_same_prefix_and_depth_finds_all_three_values() {
    let mut store = KvForest::create();
    let root = store.add_root().expect("root");
    let root = store.push(root, 0b000000000100000, 1).expect("push");
    let root = store.push(root, 0b000000001000000, 2).expect("push");
    let root = store.push(root, 0b000000001100000, 3).expect("push");
    assert_eq!(Ok(3), store.size(root));
    assert_eq!(Ok(Some(1)), store.find(root, &0b000000000100000));
    assert_eq!(Ok(Some(2)), store.find(root, &0b000000001000000));
    assert_eq!(Ok(Some(3)), store.find(root, &0b000000001100000));
    assert_eq!(Ok(None), store.find(root, &0));
}

#[test]
fn tests_insert_two_keys_with_same_prefix_and_depth_finds_both_values() {
    let mut store = KvForest::create();
    let root = store.add_root().expect("root");
    let root = store.push(root, 0b000000000100000, 1).expect("push");
    let root = store.push(root, 0b000000001000000, 2).expect("push");
    assert_eq!(Ok(2), store.size(root));
    assert_eq!(Ok(Some(1)), store.find(root, &0b000000000100000));
    assert_eq!(Ok(Some(2)), store.find(root, &0b000000001000000));
    assert_eq!(Ok(None), store.find(root, &0));
}

#[test]
fn tests_insert_two_keys_on_different_paths_finds_both_values() {
    let mut store = KvForest::create();
    let root = store.add_root().expect("root");
    let root = store.push(root, 0b000000000100000, 1).expect("push");
    let root = store.push(root, 0b000010000100000, 33).expect("push");
    assert_eq!(Ok(2), store.size(root));
    assert_eq!(Ok(Some(1)), store.find(root, &0b000000000100000));
    assert_eq!(Ok(Some(33)), store.find(root, &0b000010000100000));
    assert_eq!(Ok(None), store.find(root, &0));
}

#[test]
fn tests_insert_same_key_finds_last_value() {
    let mut store = KvForest::create();
    let root = store.add_root().expect("root");
    let root = store.push(root, 0b000010000000000, 1).expect("push");
    let root = store.push(root, 0b000010000000000, 2).expect("push");
    assert_eq!(Ok(1), store.size(root));
    assert_eq!(Ok(Some(2)), store.find(root, &0b000010000000000));
    assert_eq!(Ok(None), store.find(root, &0));
}

#[test]
fn tests_insert_value_finds_value() {
    let mut store = KvForest::create();
    let root = store.add_root().expect("root");
    let root = store.push(root, 0b000010000000000, 1).expect("push");
    assert_eq!(Ok(1), store.size(root));
    assert_eq!(Ok(Some(1)), store.find(root, &0b000010000000000));
    assert_eq!(Ok(None), store.find(root, &0));
}

#[test]
fn persistence_persist_empty() {
    let (bytes, index) = {
        let mut forest = KvForest::create();
        let index = forest.add_root().expect("index");
        (forest.stash().bytes_from(0), index)
    };
    let forest = KvForest::open(&bytes).expect("open");
    assert_eq!(0, size(&forest, index));
}

#[test]
fn persistence_persist_thousand_internal_71() {
    let (bytes, index) = {
        let mut forest = KvForest::create();
        let mut index = forest.add_root().expect("add-root");
        for i in 0..1000 {
            index = forest.push(index, i * 71, i + 1).expect("push");
        }
        (forest.stash().bytes_from(0), index)
    };
    let forest = KvForest::open(&bytes).expect("open");
    assert_eq!(1000, size(&forest, index));
    for i in 0..1000 {
        assert_eq!(Some(i + 1), forest.find(index, &(i * 71)).expect("find"));
    }
}

#[test]
fn earlier_versions_stay_readable() {
    let mut forest = KvForest::create();
    let empty = forest.add_root().expect("root");
    let v1 = forest.push(empty, 7, 70).expect("push");
    let v2 = forest.push(v1, 7, 71).expect("push");
    let v3 = forest.push(v2, 8, 80).expect("push");
    let forest = reopen(&forest);
    assert_eq!(Ok(None), forest.find(empty, &7));
    assert_eq!(Ok(Some(70)), forest.find(v1, &7));
    assert_eq!(Ok(Some(71)), forest.find(v2, &7));
    assert_eq!(Ok(None), forest.find(v2, &8));
    assert_eq!(Ok(Some(71)), forest.find(v3, &7));
    assert_eq!(Ok(Some(80)), forest.find(v3, &8));
    assert_eq!(Ok(2), forest.size(v3));
}

#[test]
fn push_copies_only_the_path() {
    let mut forest = KvForest::create();
    let root = forest.add_root().expect("root");
    let root = forest.push(root, 0x0000_0001, 1).expect("push");
    let root = forest.push(root, 0x4000_0000, 2).expect("push");
    let before = forest.stash().len();
    let new_root = forest.push(root, 0x0000_0002, 3).expect("push");
    let old_top = forest.trie(root).expect("old");
    let new_top = forest.trie(new_root).expect("new");
    let (old_children, new_children) = match (old_top.elements, new_top.elements) {
        (ElementData::Indirect(a), ElementData::Indirect(b)) => (a.0, b.0),
        _ => panic!("stored roots"),
    };
    assert_eq!(old_top.map, new_top.map);
    let untouched_old = forest.stash().read(ElementStoreIndex(old_children + 1)).expect("old slot");
    let untouched_new = forest.stash().read(ElementStoreIndex(new_children + 1)).expect("new slot");
    assert_eq!(untouched_old, untouched_new);
    assert!(forest.stash().len() > before);
    assert_eq!(Ok(Some(2)), forest.find(new_root, &0x4000_0000));
    assert_eq!(Ok(Some(3)), forest.find(new_root, &2));
    assert_eq!(Ok(Some(1)), forest.find(new_root, &1));
}

#[test]
fn save_writes_identical_nodes_once() {
    let mut forest = KvForest::create();
    let leaf = || DirectElementList(vec![Element::KeyValue { key: 0, value: 5 }]);
    let child = |i: usize| Element::SubTrie(Trie {
        map: ElementMap::just_key(0),
        elements: ElementData::Direct(i),
    });
    let draft = Draft {
        nodes: vec![leaf(), leaf(), DirectElementList(vec![child(0), child(1)])],
        root: Trie { map: ElementMap(0b11), elements: ElementData::Direct(2) },
    };
    let before = forest.stash().len();
    let root = RootIndex(forest.save(&draft).expect("save"));
    let grown = forest.stash().len() - before;
    assert!(grown < 1 + 1 + 2 + 1);
    assert_eq!(4, grown);
    assert_eq!(Ok(Some(5)), forest.find(root, &0));
    assert_eq!(Ok(None), forest.find(root, &1));
}

#[test]
fn keys_with_the_discriminator_bit_are_refused() {
    let mut forest = KvForest::create();
    let root = forest.add_root().expect("root");
    let before = forest.stash().len();
    assert_eq!(Err(StoreError::KeyOutOfRange), forest.push(root, 0x8000_0000, 1));
    assert_eq!(before, forest.stash().len());
    assert!(forest.push(root, 0x7FFF_FFFF, 1).is_ok());
}

#[test]
fn corrupt_roots_are_reported() {
    let mut forest = KvForest::create();
    let root = forest.add_root().expect("root");
    let root = forest.push(root, 3, 4).expect("push");
    let leaf_record = RootIndex(ElementStoreIndex(root.to_u32() - 1));
    assert_eq!(Err(StoreError::Corrupt), forest.find(leaf_record, &3));
    assert_eq!(Err(StoreError::Corrupt), forest.find(RootIndex::from(1000), &3));
    assert_eq!(Err(StoreError::Corrupt), forest.push(RootIndex::from(1000), 3, 5));
    let mut bad = forest.stash().bytes_from(0);
    bad[0] = 1;
    assert!(KvForest::open(&bad).is_err());
    assert_eq!(Err(StoreError::Corrupt), KvForest::open(&bad[..12]).map(|f| f.stash().len()));
}

#[test]
fn size_counts_distinct_keys() {
    let mut forest = KvForest::create();
    let mut root = forest.add_root().expect("root");
    let keys = [5u32, 9, 5, 1 << 20, 9, 0, 5, 0x7FFF_FFFF];
    for (i, key) in keys.iter().enumerate() {
        root = forest.push(root, *key, i as u32).expect("push");
    }
    assert_eq!(Ok(5), forest.size(root));
    assert_eq!(Ok(Some(6)), forest.find(root, &5));
    assert_eq!(Ok(Some(4)), forest.find(root, &9));
    assert_eq!(Ok(Some(5)), forest.find(root, &0));
    assert_eq!(Ok(Some(7)), forest.find(root, &0x7FFF_FFFF));
    assert_eq!(Ok(None), forest.find(root, &6));
}

#[test]
fn draft_shares_every_slot_off_the_path() {
    let mut forest = KvForest::create();
    let mut root = forest.add_root().expect("root");
    for key in [0x0000_0001u32, 0x4000_0000, 0x4200_0000] {
        root = forest.push(root, key, key).expect("push");
    }
    let trie = forest.trie(root).expect("trie");
    let top = match trie.elements {
        ElementData::Indirect(top) => top.0,
        ElementData::Direct(_) => panic!("stored root"),
    };
    let old_slot_0 = hamt::trie::parse(&forest.stash().read(ElementStoreIndex(top)).expect("slot 0"));
    let draft = trie.push(forest.stash(), 0x4000_0001, 9).expect("draft");
    let new_root = match draft.root.elements {
        ElementData::Direct(i) => &draft.nodes[i],
        ElementData::Indirect(_) => panic!("unsaved root"),
    };
    assert_eq!(2, new_root.0.len());
    assert_eq!(old_slot_0, new_root.0[0]);
    assert!(matches!(new_root.0[1], Element::SubTrie(Trie { elements: ElementData::Direct(_), .. })));
    assert_eq!(Ok(Some(9)), {
        let saved = RootIndex(forest.save(&draft).expect("save"));
        forest.find(saved, &0x4000_0001)
    });
}

#[test]
fn open_refuses_a_reference_to_a_later_node() {
    let mut bytes = KvForest::create().stash().bytes_from(0);
    bytes.extend_from_slice(&[0, 0, 0, 5, 0, 0, 0, 1]);
    assert_eq!(Err(StoreError::Corrupt), KvForest::open(&bytes).map(|f| f.stash().len()));
}

#[test]
fn zipping_builds_one_single_child_node_per_shared_shard() {
    let mut forest = KvForest::create();
    let root = forest.add_root().expect("root");
    let root = forest.push(root, 0, 10).expect("push");
    let trie = forest.trie(root).expect("trie");
    let draft = trie.push(forest.stash(), 1, 11).expect("draft");
    assert_eq!(7, draft.nodes.len());
    assert_eq!(
        vec![Element::KeyValue { key: 0, value: 10 }, Element::KeyValue { key: 1, value: 11 }],
        draft.nodes[0].0
    );
    for i in 1..6 {
        let child_map = if i == 1 { ElementMap(0b11) } else { ElementMap::just_key(0) };
        assert_eq!(
            vec![Element::SubTrie(Trie { map: child_map, elements: ElementData::Direct(i - 1) })],
            draft.nodes[i].0
        );
    }
    assert_eq!(ElementMap::just_key(0), draft.root.map);
    let saved = RootIndex(forest.save(&draft).expect("save"));
    assert_eq!(Ok(Some(10)), forest.find(saved, &0));
    assert_eq!(Ok(Some(11)), forest.find(saved, &1));
    assert_eq!(Ok(2), forest.size(saved));
}
