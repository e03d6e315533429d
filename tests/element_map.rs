use hamt::element_map::ElementMap;

#[test]
fn keys_to_maps() {
    let keys = [0u8, 1, 7, 8, 30, 31];
    let array_maps: [ElementMap; 6] = std::array::from_fn(|i| ElementMap::just_key(keys[i]));
    assert_eq!(
        [
            ElementMap(0x00000001),
            ElementMap(0x00000002),
            ElementMap(0x00000080),
            ElementMap(0x00000100),
            ElementMap(0x40000000),
            ElementMap(0x80000000),
        ],
        array_maps
    );
}

#[test]
fn include_key_adds_one_bit_and_is_idempotent() {
    let map = ElementMap::just_key(3).include_key(17);
    assert_eq!(ElementMap(0x0002_0008), map);
    assert_eq!(map, map.include_key(17));
    assert!(map.has_key(3));
    assert!(map.has_key(17));
    assert!(!map.has_key(4));
    assert_eq!(2, map.len());
}

#[test]
fn insertion_index_counts_present_shards_below() {
    let map = ElementMap(0b1011_0010);
    assert_eq!(0, map.to_insertion_index(0));
    assert_eq!(0, map.to_insertion_index(1));
    assert_eq!(1, map.to_insertion_index(2));
    assert_eq!(1, map.to_insertion_index(4));
    assert_eq!(2, map.to_insertion_index(5));
    assert_eq!(4, map.to_insertion_index(31));
    assert_eq!(Some(2), map.to_viewing_index(5));
    assert_eq!(None, map.to_viewing_index(6));
    assert_eq!(Some(3), map.to_viewing_index(7));
}

#[test]
fn empty_map_has_no_shard() {
    let map = ElementMap::empty();
    assert_eq!(0, map.len());
    assert_eq!(None, map.to_viewing_index(0));
    assert_eq!(0, map.to_insertion_index(31));
    assert_eq!(32, ElementMap(0xFFFF_FFFF).len());
}
