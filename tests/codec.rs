use hamt::codec::{
    u32_from_bytes, u32_from_key, u32_from_stash_index, u32_is_stash_index, u32_key_byte,
    u32_to_bytes, u32_to_key,
};
use hamt::stash::{bytes_from_element, ElementStoreIndex, Record};
use hamt::trie::{parse, Element, ElementData, Trie};
use hamt::element_map::ElementMap;
use hamt::trie_stash::TrieStashIndex;

#[test]
fn bytes_round_trip_big_endian() {
    assert_eq!([0x12, 0x34, 0x56, 0x78], u32_to_bytes(0x1234_5678));
    assert_eq!(0x1234_5678, u32_from_bytes(&[0x12, 0x34, 0x56, 0x78]));
    assert_eq!(0xFFFF_FFFF, u32_from_bytes(&u32_to_bytes(0xFFFF_FFFF)));
}

#[test]
fn shards_cycle_through_seven_positions() {
    let key = 0b11_10101_00001_11111_00000_10000_00100u32;
    assert_eq!(0b11, u32_key_byte(&key, 0));
    assert_eq!(0b10101, u32_key_byte(&key, 1));
    assert_eq!(0b00001, u32_key_byte(&key, 2));
    assert_eq!(0b11111, u32_key_byte(&key, 3));
    assert_eq!(0b00000, u32_key_byte(&key, 4));
    assert_eq!(0b10000, u32_key_byte(&key, 5));
    assert_eq!(0b00100, u32_key_byte(&key, 6));
    assert_eq!(0b11, u32_key_byte(&key, 7));
}

#[test]
fn discriminator_bit_tells_keys_from_references() {
    assert!(u32_is_stash_index(u32_from_stash_index(12)));
    assert!(!u32_is_stash_index(u32_from_key(12)));
    assert_eq!(0x8000_000C, u32_from_key(12));
    assert_eq!(12, u32_to_key(u32_from_key(12)));
    assert_eq!(0x7FFF_FFFF, u32_to_key(0xFFFF_FFFF));
}

#[test]
fn records_encode_both_fields_big_endian() {
    assert_eq!([0, 0, 0, 1, 0, 0, 0, 2], bytes_from_element(&Record { left: 1, right: 2 }));
    assert_eq!(
        Element::KeyValue { key: 5, value: 9 },
        parse(&Record { left: 0x8000_0005, right: 9 })
    );
    assert_eq!(
        Element::SubTrie(Trie {
            map: ElementMap(6),
            elements: ElementData::Indirect(ElementStoreIndex(5)),
        }),
        parse(&Record { left: 5, right: 6 })
    );
}

#[test]
fn indices_convert_to_file_positions() {
    assert_eq!(24, ElementStoreIndex(3).to_file_position());
    assert_eq!(ElementStoreIndex(3), ElementStoreIndex::from_file_position(31));
    assert_eq!(12, TrieStashIndex(3).to_file_index());
    assert_eq!(TrieStashIndex(3), TrieStashIndex::from_file_index(15));
}
