//! Positions in a stash of 4-byte entries that name trie roots.
use vstd::prelude::*;

verus! {

/// The size of one entry in bytes.
pub const INDEX_BYTES: u64 = 4;

/// The index of an entry.
#[derive(Debug, Clone, Copy, PartialEq, Eq, Structural)]
pub struct TrieStashIndex(pub u32);

impl TrieStashIndex {
    /// The byte offset of the entry.
    pub fn to_file_index(&self) -> (r: u64)
        ensures
            r == self.0 as int * INDEX_BYTES,
    {
        self.0 as u64 * INDEX_BYTES
    }

    /// The index of the entry at a byte offset.
    pub fn from_file_index(file_index: u64) -> (r: Self)
        requires
            file_index / INDEX_BYTES <= u32::MAX,
        ensures
            r.0 == file_index / INDEX_BYTES,
    {
        TrieStashIndex((file_index / INDEX_BYTES) as u32)
    }
}

} // verus!
