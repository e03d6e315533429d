//! A persistent, append-only key-value store built on a hash-array-mapped trie.
//!
//! - `element_map`: the 32-slot presence bitmap of a node and its rank-based positions.
//! - `codec`: shards of a key, and the discriminator bit that tells a literal key from a
//!   reference to a stored node.
//! - `stash`: the append-only log of 8-byte records and its byte layout.
//! - `trie`: lookup over stored nodes, and path-copying insertion into a draft of unsaved nodes.
//! - `forest`: saving drafts into the log with deduplication, and the versions named by roots.
//! - `key_store`: how keys become slot tokens, with the file layout of string keys.
//! - `item_store`, `segmented_store`, `store`, `datom`, `trie_stash`: in-memory item stores and
//!   the small value types around them.
pub mod codec;
pub mod datom;
pub mod element_map;
pub mod error;
pub mod forest;
pub mod item_store;
pub mod key_store;
pub mod segmented_store;
pub mod stash;
pub mod store;
pub mod trie;
pub mod trie_stash;
