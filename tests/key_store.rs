use hamt::error::StoreError;
use hamt::key_store::{Key, KeyField, KeyStore, KeyStoreIndex, ReadKey, StringKeyStore, U32KeyStore};

#[test]
fn mod_basic() {
    let store = &mut U32KeyStore;
    let write_key = 137u32;
    let key_store_index = store.write_key(&write_key).expect("write_key");
    let read_key = store.read_key(key_store_index).expect("read_key");
    assert_eq!(write_key, read_key);
}

#[test]
fn ks_basic() {
    let mut store = StringKeyStore::open(&[]);
    let key = "Hello!".to_string();
    let index = store.write_key(&key).expect("write_key");
    let read_key = store.read_key(index).expect("read_key");
    assert_eq!(key, read_key);
}

#[test]
fn string_keys_keep_multi_byte_characters_and_offsets() {
    let mut store = StringKeyStore::open(&[]);
    let first = "Hello!".to_string();
    let second = "größe ✓".to_string();
    let i1 = store.write_key(&first).expect("first");
    let i2 = store.write_key(&second).expect("second");
    assert_eq!(KeyStoreIndex(0), i1);
    assert_eq!(KeyStoreIndex(8), i2);
    assert_eq!(0, store.bytes()[8]);
    assert_eq!(second.len() as u8, store.bytes()[9]);
    assert_eq!(second.as_bytes(), &store.bytes()[10..]);
    let reopened = StringKeyStore::open(store.bytes());
    assert_eq!(first, reopened.read_key(i1).expect("read first"));
    assert_eq!(second, reopened.read_key(i2).expect("read second"));
}

#[test]
fn string_key_record_with_invalid_utf8_is_corrupt() {
    let store = StringKeyStore::open(&[0, 2, 0xC3, 0x28]);
    assert_eq!(Err(StoreError::Corrupt), store.read_key(KeyStoreIndex(0)));
    let truncated = StringKeyStore::open(&[0, 5, b'a']);
    assert_eq!(Err(StoreError::Corrupt), truncated.read_key(KeyStoreIndex(0)));
    assert_eq!(Err(StoreError::Corrupt), truncated.read_key(KeyStoreIndex(7)));
}

#[test]
fn overlong_string_key_is_refused() {
    let mut store = StringKeyStore::open(&[]);
    let key = "x".repeat(0x1_0000);
    assert_eq!(Err(StoreError::KeyTooLong), store.write_key(&key));
    assert!(store.bytes().is_empty());
}

#[test]
fn u32_key_with_discriminator_bit_is_refused() {
    let mut store = U32KeyStore::open("unused").expect("open");
    assert_eq!(Err(StoreError::KeyOutOfRange), store.write_key(&0x8000_0000));
    assert_eq!(Ok(KeyStoreIndex(0x7FFF_FFFF)), store.write_key(&0x7FFF_FFFF));
}

#[test]
fn shards_of_keys() {
    assert_eq!(0b00010, 0b0000_0100_0010u32.to_shard(5));
    let s = "Hi".to_string();
    assert_eq!(0x4, s.to_shard(0));
    assert_eq!(0x8, s.to_shard(1));
    assert_eq!(0x6, s.to_shard(2));
    assert_eq!(0x9, s.to_shard(3));
    assert_eq!(7, KeyField(7).to_u32());
    assert_eq!(9, KeyStoreIndex(9).to_file_pos());
}
