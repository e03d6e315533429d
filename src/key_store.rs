//! Key stores: how a key becomes the token kept in a trie slot, and back. A 32-bit key is its
//! own token; a string is appended to a key file as `[2-byte big-endian length][UTF-8 bytes]`
//! and its token is the byte offset of that record.
use vstd::prelude::*;
use vstd::utf8::{decode_utf8, encode_utf8, valid_utf8};
use crate::codec::{key_shard, u32_key_byte, KEY_FLAG, MAX_KEY};
use crate::error::StoreError;

verus! {

/// A key token as it stands in a trie slot: with the discriminator bit set.
#[derive(Debug, Clone, Copy, PartialEq, Eq, Structural, Hash)]
pub struct KeyField(pub u32);

impl KeyField {
    /// The field as stored.
    pub fn to_u32(&self) -> (r: u32)
        ensures
            r == self.0,
    {
        self.0
    }
}

/// The token of a key: the key itself, or the offset of its record in a key file.
#[derive(Debug, Clone, Copy, PartialEq, Eq, Structural, Hash)]
pub struct KeyStoreIndex(pub u32);

impl KeyStoreIndex {
    /// The token as a word.
    pub fn to_u32(&self) -> (r: u32)
        ensures
            r == self.0,
    {
        self.to_file_pos() as u32
    }

    /// The byte offset of the key's record in a key file.
    pub fn to_file_pos(&self) -> (r: u64)
        ensures
            r == self.0,
    {
        self.0 as u64
    }
}

/// A key with a shard at each depth of a trie.
pub trait Key {
    /// Whether the key has a shard at `depth`.
    spec fn has_shard(&self, depth: nat) -> bool;

    /// The shard of the key at `depth`.
    spec fn shard(&self, depth: nat) -> u8;

    fn to_shard(&self, depth: usize) -> (r: u8)
        requires
            self.has_shard(depth as nat),
        ensures
            r == self.shard(depth as nat),
    ;
}

/// A 32-bit key has a 5-bit shard at every depth; the shards repeat every seven depths.
impl Key for u32 {
    open spec fn has_shard(&self, depth: nat) -> bool {
        true
    }

    open spec fn shard(&self, depth: nat) -> u8 {
        key_shard(*self, depth) as u8
    }

    fn to_shard(&self, depth: usize) -> (r: u8) {
        u32_key_byte(self, depth)
    }
}

/// A string key has a 4-bit shard per depth: the high, then the low half of each UTF-8 byte.
impl Key for String {
    open spec fn has_shard(&self, depth: nat) -> bool {
        depth / 2 < encode_utf8(self@).len()
    }

    open spec fn shard(&self, depth: nat) -> u8 {
        let b = encode_utf8(self@)[(depth / 2) as int];
        if depth % 2 == 0 {
            b >> 4u8
        } else {
            b & 0x0fu8
        }
    }

    fn to_shard(&self, depth: usize) -> (r: u8) {
        let bytes = self.as_str().as_bytes();
        let full_byte = bytes[depth / 2];
        if depth % 2 == 0 {
            full_byte >> 4u8
        } else {
            full_byte & 0x0fu8
        }
    }
}

/// Reads a key back from its token.
pub trait ReadKey<K> {
    fn read_key(&self, index: KeyStoreIndex) -> Result<K, StoreError>;
}

/// Turns a key into its token, storing what the token does not hold.
pub trait KeyStore<K>: ReadKey<K> {
    fn write_key(&mut self, key: &K) -> Result<KeyStoreIndex, StoreError>;
}

/// The store of 32-bit keys: a key is its own token, and nothing is stored.
#[derive(Debug)]
pub struct U32KeyStore;

impl U32KeyStore {
    /// Nothing is kept on disk for 32-bit keys.
    pub fn create(_path: &str) -> (r: Result<(), StoreError>)
        ensures
            r is Ok,
    {
        Ok(())
    }

    pub fn open(_path: &str) -> (r: Result<Self, StoreError>)
        ensures
            r is Ok,
    {
        Ok(U32KeyStore)
    }

    /// The key of a token: the token itself.
    pub fn read_key(&self, index: KeyStoreIndex) -> (r: Result<u32, StoreError>)
        ensures
            r == Ok::<u32, StoreError>(index.0),
    {
        Ok(index.to_u32())
    }

    /// The token of a key: the key itself. A key that needs the discriminator bit is refused.
    pub fn write_key(&mut self, key: &u32) -> (r: Result<KeyStoreIndex, StoreError>)
        ensures
            *key <= MAX_KEY ==> r == Ok::<KeyStoreIndex, StoreError>(KeyStoreIndex(*key)),
            *key > MAX_KEY ==> r == Err::<KeyStoreIndex, StoreError>(StoreError::KeyOutOfRange),
    {
        if *key > MAX_KEY {
            Err(StoreError::KeyOutOfRange)
        } else {
            Ok(KeyStoreIndex(*key))
        }
    }
}

impl ReadKey<u32> for U32KeyStore {
    fn read_key(&self, index: KeyStoreIndex) -> Result<u32, StoreError> {
        U32KeyStore::read_key(self, index)
    }
}

impl KeyStore<u32> for U32KeyStore {
    fn write_key(&mut self, key: &u32) -> Result<KeyStoreIndex, StoreError> {
        U32KeyStore::write_key(self, key)
    }
}

/// The largest byte length of a string key.
pub const MAX_KEY_BYTES: usize = 0xFFFF;

/// The two big-endian bytes of a length.
pub open spec fn size_bytes(n: nat) -> Seq<u8> {
    seq![(n / 256) as u8, (n % 256) as u8]
}

/// The record of a string key in the key file.
pub open spec fn key_record(key: Seq<char>) -> Seq<u8> {
    size_bytes(encode_utf8(key).len()) + encode_utf8(key)
}

/// The length that the record at `pos` of a key file states.
pub open spec fn size_at(b: Seq<u8>, pos: int) -> int {
    b[pos] as int * 256 + b[pos + 1] as int
}

/// The key bytes of the record at `pos`, when the file holds all of it.
pub open spec fn key_bytes_at(b: Seq<u8>, pos: int) -> Option<Seq<u8>> {
    if 0 <= pos && pos + 2 <= b.len() && pos + 2 + size_at(b, pos) <= b.len() {
        Some(b.subrange(pos + 2, pos + 2 + size_at(b, pos)))
    } else {
        None
    }
}

/// The length stated by two big-endian bytes.
fn decode_size(bytes: [u8; 2]) -> (r: usize)
    ensures
        r == bytes@[0] as int * 256 + bytes@[1] as int,
{
    bytes[0] as usize * 256 + bytes[1] as usize
}

/// The two big-endian bytes of a length.
fn encode_size(size: usize) -> (r: [u8; 2])
    requires
        size <= MAX_KEY_BYTES,
    ensures
        r@ == size_bytes(size as nat),
{
    let r = [(size / 256) as u8, (size % 256) as u8];
    assert(r@ =~= size_bytes(size as nat));
    r
}

/// Relies on String::from_utf8: the string of the bytes when they are valid UTF-8, an error
/// otherwise.
#[verifier::external_body]
fn string_from_utf8(bytes: Vec<u8>) -> (r: Option<String>)
    ensures
        match r {
            Some(s) => valid_utf8(bytes@) && encode_utf8(s@) == bytes@,
            None => !valid_utf8(bytes@),
        },
{
    String::from_utf8(bytes).ok()
}

/// The store of string keys: the bytes of its key file.
#[derive(Debug)]
pub struct StringKeyStore {
    bytes: Vec<u8>,
}

impl View for StringKeyStore {
    type V = Seq<u8>;

    closed spec fn view(&self) -> Seq<u8> {
        self.bytes@
    }
}

impl StringKeyStore {
    /// The store whose key file holds `bytes`.
    pub fn open(bytes: &[u8]) -> (r: Self)
        ensures
            r@ == bytes@,
    {
        let mut v: Vec<u8> = Vec::new();
        let mut i: usize = 0;
        while i < bytes.len()
            invariant
                i <= bytes@.len(),
                v@ == bytes@.subrange(0, i as int),
            decreases bytes@.len() - i,
        {
            v.push(bytes[i]);
            i = i + 1;
            assert(v@ =~= bytes@.subrange(0, i as int));
        }
        assert(v@ =~= bytes@);
        StringKeyStore { bytes: v }
    }

    /// The bytes of the key file.
    pub fn bytes(&self) -> (r: &Vec<u8>)
        ensures
            r@ == self@,
    {
        &self.bytes
    }

    /// The key whose record starts at offset `index`. A record that runs past the end of the
    /// file, or whose bytes are not UTF-8, is corrupt.
    pub fn read_key(&self, index: KeyStoreIndex) -> (r: Result<String, StoreError>)
        ensures
            match key_bytes_at(self@, index.0 as int) {
                None => r == Err::<String, StoreError>(StoreError::Corrupt),
                Some(kb) => match r {
                    Ok(s) => valid_utf8(kb) && encode_utf8(s@) == kb && s@ == decode_utf8(kb),
                    Err(e) => e == StoreError::Corrupt && !valid_utf8(kb),
                },
            },
    {
        let pos = index.0 as usize;
        let len = self.bytes.len();
        if pos > len || len - pos < 2 {
            return Err(StoreError::Corrupt);
        }
        let size = decode_size([self.bytes[pos], self.bytes[pos + 1]]);
        if size > len - pos - 2 {
            return Err(StoreError::Corrupt);
        }
        let mut buffer: Vec<u8> = Vec::new();
        let mut i: usize = 0;
        while i < size
            invariant
                len == self@.len(),
                pos + 2 + size <= len,
                i <= size,
                buffer@ == self@.subrange(pos + 2, pos + 2 + i),
            decreases size - i,
        {
            buffer.push(self.bytes[pos + 2 + i]);
            i = i + 1;
            assert(buffer@ =~= self@.subrange(pos + 2, pos + 2 + i));
        }
        match string_from_utf8(buffer) {
            Some(s) => {
                proof {
                    vstd::utf8::decode_utf8_encode_utf8(encode_utf8(s@));
                    vstd::utf8::encode_utf8_decode_utf8(s@);
                }
                Ok(s)
            },
            None => Err(StoreError::Corrupt),
        }
    }

    /// Appends the record of `key` and returns its offset. A key longer than the length
    /// prefix can state is refused, and so is a record whose offset a key field cannot hold.
    pub fn write_key(&mut self, key: &String) -> (r: Result<KeyStoreIndex, StoreError>)
        ensures
            match r {
                Ok(i) => i.0 == old(self)@.len() && final(self)@ == old(self)@ + key_record(key@),
                Err(e) => final(self)@ == old(self)@ && (e == StoreError::KeyTooLong && encode_utf8(
                    key@,
                ).len() > MAX_KEY_BYTES || e == StoreError::Full && encode_utf8(key@).len()
                    <= MAX_KEY_BYTES && old(self)@.len() > MAX_KEY),
            },
    {
        let bytes = key.as_str().as_bytes();
        if bytes.len() > MAX_KEY_BYTES {
            return Err(StoreError::KeyTooLong);
        }
        let pos = self.bytes.len();
        if pos > MAX_KEY as usize {
            return Err(StoreError::Full);
        }
        let size_bytes = encode_size(bytes.len());
        self.bytes.push(size_bytes[0]);
        self.bytes.push(size_bytes[1]);
        let ghost head = self@;
        let mut i: usize = 0;
        while i < bytes.len()
            invariant
                i <= bytes@.len(),
                self@ == head + bytes@.subrange(0, i as int),
            decreases bytes@.len() - i,
        {
            self.bytes.push(bytes[i]);
            i = i + 1;
            assert(self@ =~= head + bytes@.subrange(0, i as int));
        }
        assert(self@ =~= old(self)@ + key_record(key@));
        Ok(KeyStoreIndex(pos as u32))
    }
}

impl ReadKey<String> for StringKeyStore {
    fn read_key(&self, index: KeyStoreIndex) -> Result<String, StoreError> {
        StringKeyStore::read_key(self, index)
    }
}

impl KeyStore<String> for StringKeyStore {
    fn write_key(&mut self, key: &String) -> Result<KeyStoreIndex, StoreError> {
        StringKeyStore::write_key(self, key)
    }
}

/// A string key written to a key store reads back as the same string, whatever is written to
/// the store after it.
pub proof fn lemma_key_round_trip(file: Seq<u8>, key: Seq<char>, later: Seq<u8>)
    requires
        encode_utf8(key).len() <= MAX_KEY_BYTES,
    ensures
        key_bytes_at(file + key_record(key) + later, file.len() as int) == Some(encode_utf8(key)),
        valid_utf8(encode_utf8(key)),
        decode_utf8(encode_utf8(key)) == key,
{
    let b = file + key_record(key) + later;
    let n = encode_utf8(key).len();
    let pos = file.len() as int;
    assert(b[pos] == (n / 256) as u8);
    assert(b[pos + 1] == (n % 256) as u8);
    assert(size_at(b, pos) == n);
    assert(b.subrange(pos + 2, pos + 2 + n) =~= encode_utf8(key));
    vstd::utf8::encode_utf8_valid_utf8(key);
    vstd::utf8::encode_utf8_decode_utf8(key);
}

} // verus!
