//! The 32-slot presence bitmap of one trie node, with rank-based positions.
use vstd::prelude::*;

verus! {

/// Whether bit `k` of `m` is set.
pub open spec fn bit_set(m: u32, k: u32) -> bool {
    (m >> k) & 1u32 == 1u32
}

/// The number of set bits of `m` among bits `0 .. n`.
pub open spec fn pop_below(m: u32, n: nat) -> nat
    decreases n,
{
    if n == 0 {
        0
    } else {
        pop_below(m, (n - 1) as nat) + if bit_set(m, (n - 1) as u32) {
            1nat
        } else {
            0nat
        }
    }
}

/// The number of set bits of `m`.
pub open spec fn pop_count(m: u32) -> nat {
    pop_below(m, 32)
}

/// Relies on u32::count_ones: the number of ones in the binary representation.
#[verifier::external_body]
fn count_ones(x: u32) -> (r: u32)
    ensures
        r as nat == pop_count(x),
{
    x.count_ones()
}

proof fn lemma_bits_of_mask(m: u32, k: u32, j: u32)
    by (bit_vector)
    requires
        k < 32,
        j < 32,
    ensures
        ((m & !(0xFFFF_FFFFu32 << k)) >> j) & 1u32 == 1u32 <==> (j < k && (m >> j) & 1u32 == 1u32),
{
}

proof fn lemma_bits_of_include(m: u32, k: u32, j: u32)
    by (bit_vector)
    requires
        k < 32,
        j < 32,
    ensures
        ((m | (1u32 << k)) >> j) & 1u32 == 1u32 <==> (j == k || (m >> j) & 1u32 == 1u32),
{
}

proof fn lemma_bits_of_flag(k: u32, j: u32)
    by (bit_vector)
    requires
        k < 32,
        j < 32,
    ensures
        ((1u32 << k) >> j) & 1u32 == 1u32 <==> j == k,
        (1u32 << k) == (0u32 | (1u32 << k)),
{
}

proof fn lemma_zero_bits(j: u32)
    by (bit_vector)
    requires
        j < 32,
    ensures
        !((0u32 >> j) & 1u32 == 1u32),
{
}

/// Counting below `n` over a masked word counts below `min(n, k)` over the word.
proof fn lemma_pop_masked(m: u32, k: u32, n: nat)
    requires
        k < 32,
        n <= 32,
    ensures
        pop_below(m & !(0xFFFF_FFFFu32 << k), n) == pop_below(m, if n < k { n } else { k as nat }),
    decreases n,
{
    if n > 0 {
        lemma_pop_masked(m, k, (n - 1) as nat);
        lemma_bits_of_mask(m, k, (n - 1) as u32);
    }
}

/// Counting is monotone in the bound.
pub proof fn lemma_pop_mono(m: u32, a: nat, b: nat)
    requires
        a <= b,
    ensures
        pop_below(m, a) <= pop_below(m, b),
    decreases b - a,
{
    if a < b {
        lemma_pop_mono(m, a, (b - 1) as nat);
    }
}

/// Counting never exceeds the bound.
pub proof fn lemma_pop_le(m: u32, n: nat)
    ensures
        pop_below(m, n) <= n,
    decreases n,
{
    if n > 0 {
        lemma_pop_le(m, (n - 1) as nat);
    }
}

/// Setting a clear bit `k` adds one to every count whose bound lies above `k`.
pub proof fn lemma_pop_include(m: u32, k: u32, n: nat)
    requires
        k < 32,
        n <= 32,
        !bit_set(m, k),
    ensures
        pop_below(m | (1u32 << k), n) == pop_below(m, n) + if k < n { 1nat } else { 0nat },
    decreases n,
{
    if n > 0 {
        lemma_pop_include(m, k, (n - 1) as nat);
        lemma_bits_of_include(m, k, (n - 1) as u32);
    }
}

/// A set bit has a rank below the total count, and ranks keep the order of bits.
pub proof fn lemma_rank_bounds(m: u32, k: u32, j: u32)
    requires
        k < 32,
        j < 32,
        bit_set(m, k),
    ensures
        pop_below(m, k as nat) < pop_count(m),
        j < k ==> pop_below(m, j as nat) <= pop_below(m, k as nat),
        j < k && bit_set(m, j) ==> pop_below(m, j as nat) < pop_below(m, k as nat),
        k < j ==> pop_below(m, k as nat) < pop_below(m, j as nat),
{
    lemma_pop_mono(m, (k + 1) as nat, 32);
    if j < k {
        lemma_pop_mono(m, j as nat, k as nat);
        lemma_pop_mono(m, (j + 1) as nat, k as nat);
    }
    if k < j {
        lemma_pop_mono(m, (k + 1) as nat, j as nat);
    }
}

/// Of the empty word no bit is set.
pub proof fn lemma_pop_zero(n: nat)
    requires
        n <= 32,
    ensures
        pop_below(0u32, n) == 0,
    decreases n,
{
    if n > 0 {
        lemma_pop_zero((n - 1) as nat);
        lemma_zero_bits((n - 1) as u32);
    }
}

/// The elements of a node stand in ascending order of shard: the position of a present shard
/// is the number of present shards below it, so a smaller shard has a smaller position; adding
/// an absent shard `k` puts its element at the position `k` had as insertion point and moves
/// exactly the elements of larger shards one place on.
pub proof fn lemma_ordering(m: u32, a: u32, b: u32, k: u32)
    requires
        a < b < 32,
        bit_set(m, a),
        bit_set(m, b),
        k < 32,
        !bit_set(m, k),
    ensures
        pop_below(m, a as nat) < pop_below(m, b as nat),
        pop_below(m | (1u32 << k), k as nat) == pop_below(m, k as nat),
        pop_below(m | (1u32 << k), a as nat) == pop_below(m, a as nat) + if k < a {
            1nat
        } else {
            0nat
        },
        pop_count(m | (1u32 << k)) == pop_count(m) + 1,
{
    lemma_rank_bounds(m, a, b);
    lemma_pop_include(m, k, k as nat);
    lemma_pop_include(m, k, a as nat);
    lemma_pop_include(m, k, 32);
}

/// Of the empty bitmap no shard is present.
pub proof fn lemma_empty_map(j: u32)
    requires
        j < 32,
    ensures
        !bit_set(0u32, j),
{
    lemma_zero_bits(j);
}

/// Of a word with the single bit `k`, the count below `n` is one exactly when `k < n`.
pub proof fn lemma_pop_flag(k: u32, n: nat)
    requires
        k < 32,
        n <= 32,
    ensures
        pop_below(1u32 << k, n) == if k < n { 1nat } else { 0nat },
{
    lemma_zero_bits(k);
    lemma_bits_of_flag(k, 0);
    lemma_pop_include(0u32, k, n);
    lemma_pop_zero(n);
}

/// A presence bitmap: bit `k` is set when the node holds an element for shard `k`.
#[derive(Debug, Clone, Copy, PartialEq, Eq, Structural)]
pub struct ElementMap(pub u32);

impl ElementMap {
    pub open spec fn has(&self, key: u32) -> bool {
        bit_set(self.0, key)
    }

    /// The position of shard `key` among the present shards.
    pub open spec fn rank(&self, key: u32) -> nat {
        pop_below(self.0, key as nat)
    }

    pub open spec fn count(&self) -> nat {
        pop_count(self.0)
    }

    /// The bitmap with no shard present.
    pub fn empty() -> (r: Self)
        ensures
            r.0 == 0,
            r.count() == 0,
    {
        proof {
            lemma_pop_zero(32);
        }
        ElementMap(0)
    }

    /// The bitmap with exactly shard `key` present.
    pub fn just_key(key: u8) -> (r: Self)
        requires
            key < 32,
        ensures
            r.0 == 1u32 << (key as u32),
            forall|j: u32| j < 32 ==> (#[trigger] r.has(j) <==> j == key),
            r.count() == 1,
            r.rank(key as u32) == 0,
    {
        proof {
            assert forall|j: u32| j < 32 implies (#[trigger] bit_set(1u32 << (key as u32), j) <==> j == key) by {
                lemma_bits_of_flag(key as u32, j);
            }
            lemma_pop_flag(key as u32, 32);
            lemma_pop_flag(key as u32, key as nat);
        }
        ElementMap(key_flag(key))
    }

    /// This bitmap with shard `key` added; other shards keep their presence.
    pub fn include_key(&self, key: u8) -> (r: Self)
        requires
            key < 32,
        ensures
            r.0 == self.0 | (1u32 << (key as u32)),
            forall|j: u32| j < 32 ==> (#[trigger] r.has(j) <==> (j == key || self.has(j))),
    {
        proof {
            assert forall|j: u32| j < 32 implies (#[trigger] bit_set(self.0 | (1u32 << (key as u32)), j) <==> (j == key
                || bit_set(self.0, j))) by {
                lemma_bits_of_include(self.0, key as u32, j);
            }
        }
        ElementMap(self.0 | key_flag(key))
    }

    /// Whether shard `key` is present.
    pub fn has_key(&self, key: u8) -> (r: bool)
        requires
            key < 32,
        ensures
            r == self.has(key as u32),
    {
        let m = self.0;
        let masked = m & key_flag(key);
        assert((masked != 0) == bit_set(m, key as u32)) by (bit_vector)
            requires
                masked == m & (1u32 << (key as u32)),
                key < 32,
        ;
        masked != 0
    }

    /// The position of shard `key` when present.
    pub fn to_viewing_index(&self, key: u8) -> (r: Option<usize>)
        requires
            key < 32,
        ensures
            r == if self.has(key as u32) {
                Some(self.rank(key as u32) as usize)
            } else {
                None::<usize>
            },
    {
        if self.has_key(key) {
            Some(self.to_insertion_index(key))
        } else {
            None
        }
    }

    /// The number of present shards below `key`: where an element for `key` belongs.
    pub fn to_insertion_index(&self, key: u8) -> (r: usize)
        requires
            key < 32,
        ensures
            r == self.rank(key as u32),
            r <= 32,
    {
        let masked = self.0 & count_ones_mask(key);
        proof {
            lemma_pop_masked(self.0, key as u32, 32);
            lemma_pop_le(self.0, key as nat);
        }
        count_ones(masked) as usize
    }

    /// The number of present shards.
    pub fn len(&self) -> (r: usize)
        ensures
            r == self.count(),
            r <= 32,
    {
        proof {
            lemma_pop_le(self.0, 32);
        }
        count_ones(self.0) as usize
    }
}

/// The word with the single bit `key`.
fn key_flag(key: u8) -> (r: u32)
    requires
        key < 32,
    ensures
        r == 1u32 << (key as u32),
{
    1u32 << (key as u32)
}

/// The word with the bits below `key`.
fn count_ones_mask(key: u8) -> (r: u32)
    requires
        key < 32,
    ensures
        r == !(0xFFFF_FFFFu32 << (key as u32)),
{
    !(0xFFFF_FFFFu32 << (key as u32))
}

} // verus!
