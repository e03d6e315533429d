//! The encoding of keys, references and 8-byte records, and the shard of a key at a depth.
use vstd::prelude::*;

verus! {

/// The discriminator bit: set in a field that holds a literal key.
pub const KEY_FLAG: u32 = 0x8000_0000;

/// The largest key (and the largest storage reference) the encoding can hold.
pub const MAX_KEY: u32 = 0x7FFF_FFFF;

/// The four big-endian bytes of a word.
pub open spec fn be_bytes(v: u32) -> Seq<u8> {
    seq![(v >> 24u32) as u8, (v >> 16u32) as u8, (v >> 8u32) as u8, v as u8]
}

/// The word of four big-endian bytes.
pub open spec fn be_value(b0: u8, b1: u8, b2: u8, b3: u8) -> u32 {
    (b0 as int * 0x100_0000 + b1 as int * 0x1_0000 + b2 as int * 0x100 + b3 as int) as u32
}

/// How far a key is shifted right to expose its shard at a depth: the depth cycles through
/// seven positions, which together cover all 32 bits of the key.
pub open spec fn shard_shift(depth: nat) -> u32 {
    let r = depth % 7;
    if r == 0 {
        30
    } else if r == 1 {
        25
    } else if r == 2 {
        20
    } else if r == 3 {
        15
    } else if r == 4 {
        10
    } else if r == 5 {
        5
    } else {
        0
    }
}

/// The shard of a key at a depth: five bits (two at the top position).
pub open spec fn key_shard(key: u32, depth: nat) -> u32 {
    (key >> shard_shift(depth)) & 31u32
}

/// Whether a field is a reference to a stored node rather than a literal key.
pub open spec fn is_reference(v: u32) -> bool {
    v < KEY_FLAG
}

/// The four big-endian bytes of a word.
pub fn u32_to_bytes(value: u32) -> (r: [u8; 4])
    ensures
        r@ == be_bytes(value),
{
    [(value >> 24u32) as u8, (value >> 16u32) as u8, (value >> 8u32) as u8, value as u8]
}

proof fn lemma_be_bits(b0: u8, b1: u8, b2: u8, b3: u8)
    by (bit_vector)
    ensures
        ((b0 as u32) << 24u32) + ((b1 as u32) << 16u32) + ((b2 as u32) << 8u32) + (b3 as u32)
            == b0 as u32 * 0x100_0000u32 + b1 as u32 * 0x1_0000u32 + b2 as u32 * 0x100u32 + b3 as u32,
        b0 as u32 * 0x100_0000u32 + b1 as u32 * 0x1_0000u32 + b2 as u32 * 0x100u32 + b3 as u32
            <= 0xFFFF_FFFFu32,
{
}

/// The word of the first four bytes, big-endian.
pub fn u32_from_bytes(bytes: &[u8]) -> (r: u32)
    requires
        bytes@.len() >= 4,
    ensures
        r == be_value(bytes@[0], bytes@[1], bytes@[2], bytes@[3]),
{
    let (b0, b1, b2, b3) = (bytes[0], bytes[1], bytes[2], bytes[3]);
    proof {
        lemma_be_bits(b0, b1, b2, b3);
    }
    ((b0 as u32) << 24u32) + ((b1 as u32) << 16u32) + ((b2 as u32) << 8u32) + (b3 as u32)
}

/// Reading back the bytes of a word gives the word.
pub proof fn lemma_bytes_round_trip(v: u32)
    ensures
        be_value(be_bytes(v)[0], be_bytes(v)[1], be_bytes(v)[2], be_bytes(v)[3]) == v,
{
    let (b0, b1, b2, b3) = ((v >> 24u32) as u8, (v >> 16u32) as u8, (v >> 8u32) as u8, v as u8);
    assert(b0 as u32 * 0x100_0000u32 + b1 as u32 * 0x1_0000u32 + b2 as u32 * 0x100u32 + b3 as u32
        == v) by (bit_vector)
        requires
            b0 == (v >> 24u32) as u8,
            b1 == (v >> 16u32) as u8,
            b2 == (v >> 8u32) as u8,
            b3 == v as u8,
    ;
    lemma_be_bits(b0, b1, b2, b3);
}

/// The shard of `value` at `depth`.
pub fn u32_key_byte(value: &u32, depth: usize) -> (r: u8)
    ensures
        r as u32 == key_shard(*value, depth as nat),
        r < 32,
{
    let v = *value;
    let shifted: u32 = match depth % 7 {
        0 => v >> 30u32,
        1 => v >> 25u32,
        2 => v >> 20u32,
        3 => v >> 15u32,
        4 => v >> 10u32,
        5 => v >> 5u32,
        _ => v,
    };
    proof {
        assert(v >> 0u32 == v) by (bit_vector);
    }
    let r = shifted & 31u32;
    assert(r < 32) by (bit_vector)
        requires
            r == shifted & 31u32,
    ;
    r as u8
}

/// Whether a field is a reference to a stored node (its discriminator bit is clear).
pub fn u32_is_stash_index(value: u32) -> (r: bool)
    ensures
        r == is_reference(value),
{
    assert((value & 0x8000_0000u32 == 0) == (value < 0x8000_0000u32)) by (bit_vector);
    (value & 0x8000_0000u32) == 0
}

/// The field that refers to a stored node.
pub fn u32_from_stash_index(stash_index: u32) -> (r: u32)
    requires
        stash_index <= MAX_KEY,
    ensures
        r == stash_index,
        is_reference(r),
{
    stash_index
}

/// The field that holds a literal key: the key with its discriminator bit set.
pub fn u32_from_key(key: u32) -> (r: u32)
    requires
        key <= MAX_KEY,
    ensures
        r == key + KEY_FLAG,
        !is_reference(r),
{
    assert(key <= 0x7FFF_FFFFu32 ==> key | 0x8000_0000u32 == key + 0x8000_0000u32) by (bit_vector);
    key | 0x8000_0000u32
}

/// The literal key of a field: the field with its discriminator bit cleared.
pub fn u32_to_key(value: u32) -> (r: u32)
    ensures
        r == value % 0x8000_0000,
        r <= MAX_KEY,
{
    assert(value & 0x7FFF_FFFFu32 == value % 0x8000_0000u32) by (bit_vector);
    value & 0x7FFF_FFFFu32
}

/// A shard is one of 32 values.
pub proof fn lemma_shard_lt(key: u32, depth: nat)
    ensures
        key_shard(key, depth) < 32,
{
    let sh = shard_shift(depth);
    assert((key >> sh) & 31u32 < 32u32) by (bit_vector);
}

/// Two keys that share their shard at seven consecutive depths are equal.
pub proof fn lemma_shards_cover_key(a: u32, b: u32, d: nat)
    requires
        forall|j: nat| d <= j < d + 7 ==> #[trigger] key_shard(a, j) == key_shard(b, j),
    ensures
        a == b,
{
    assert forall|r: nat| r < 7 implies #[trigger] key_shard(a, r) == key_shard(b, r) by {
        let j: nat = (d + ((r + 7 - d % 7) as nat) % 7) as nat;
        assert(j % 7 == r);
        assert(d <= j < d + 7);
        assert(key_shard(a, j) == key_shard(b, j));
    }
    assert(key_shard(a, 0) == key_shard(b, 0));
    assert(key_shard(a, 1) == key_shard(b, 1));
    assert(key_shard(a, 2) == key_shard(b, 2));
    assert(key_shard(a, 3) == key_shard(b, 3));
    assert(key_shard(a, 4) == key_shard(b, 4));
    assert(key_shard(a, 5) == key_shard(b, 5));
    assert(key_shard(a, 6) == key_shard(b, 6));
    assert(a == b) by (bit_vector)
        requires
            (a >> 30u32) & 31u32 == (b >> 30u32) & 31u32,
            (a >> 25u32) & 31u32 == (b >> 25u32) & 31u32,
            (a >> 20u32) & 31u32 == (b >> 20u32) & 31u32,
            (a >> 15u32) & 31u32 == (b >> 15u32) & 31u32,
            (a >> 10u32) & 31u32 == (b >> 10u32) & 31u32,
            (a >> 5u32) & 31u32 == (b >> 5u32) & 31u32,
            (a >> 0u32) & 31u32 == (b >> 0u32) & 31u32,
    ;
}

} // verus!
