//! Bit utilities: population count, the sparse index of a local key in a
//! node's bitmap, and the slicing of a 64-bit hash into 5-bit local keys.

use vstd::prelude::*;

verus! {

/// The number of hash bits consumed per tree level.
pub const BITS_PER_LEVEL: usize = 5;

/// The deepest level of the tree. Levels are numbered from 0; at this level
/// the hash is exhausted and colliding keys share a collision entry.
pub const LAST_LEVEL: usize = 12;

/// Masks the local key off a remaining hash.
pub const LEVEL_BIT_MASK: u64 = 31;

/// The capacity of a freshly built node.
pub const MIN_CAPACITY: usize = 4;

/// Whether bit `k` of `mask` is set.
pub open spec fn is_set(mask: u32, k: nat) -> bool {
    k < 32 && mask & (1u32 << (k as u32)) != 0
}

/// The bitmap with bit `k` alone.
pub open spec fn bit(k: nat) -> u32 {
    1u32 << (k as u32)
}

/// The number of set bits of `mask` strictly below position `k`.
pub open spec fn count_below(mask: u32, k: nat) -> nat
    decreases k,
{
    if k == 0 {
        0
    } else {
        count_below(mask, (k - 1) as nat) + if is_set(mask, (k - 1) as nat) {
            1nat
        } else {
            0nat
        }
    }
}

/// The number of set bits of `mask`.
pub open spec fn popcount(mask: u32) -> nat {
    count_below(mask, 32)
}

/// The bitmap that keeps the bits strictly below position `k`.
pub open spec fn low_bits(k: nat) -> u32 {
    ((1u32 << (k as u32)) - 1) as u32
}

/// The slot of local key `k` in the packed entries of a node with bitmap
/// `mask`: the population count of the bits strictly below `k`.
pub open spec fn sparse_index(mask: u32, k: nat) -> nat {
    popcount(mask & low_bits(k))
}

/// The hash that remains at `level`, after 5 bits were consumed per level above.
pub open spec fn hash_at(hash: u64, level: nat) -> u64 {
    hash >> ((5 * level) as u64)
}

/// The local key that a remaining hash selects: its low 5 bits.
pub open spec fn local_key(hash: u64) -> nat {
    (hash & 31) as nat
}

/// The local key that `hash` selects at `level`.
pub open spec fn local_key_at(hash: u64, level: nat) -> nat {
    local_key(hash_at(hash, level))
}

/// Whether two hashes select the same local key on every level above `level`.
pub open spec fn same_path(a: u64, b: u64, level: nat) -> bool {
    forall|l: nat| l < level ==> #[trigger] local_key_at(a, l) == local_key_at(b, l)
}

/// The number of set bits below a position grows with the position and is at
/// most the position.
pub proof fn lemma_count_below_le(mask: u32, j: nat, k: nat)
    requires
        j <= k,
    ensures
        count_below(mask, j) <= count_below(mask, k),
        count_below(mask, k) <= k,
    decreases k,
{
    if k > 0 {
        if j < k {
            lemma_count_below_le(mask, j, (k - 1) as nat);
        } else {
            lemma_count_below_le(mask, (k - 1) as nat, (k - 1) as nat);
        }
    }
}

/// Among the bits below `n`, masking with `low_bits(k)` keeps those below `k`.
pub proof fn lemma_count_below_low_bits(mask: u32, k: nat, n: nat)
    requires
        k < 32,
        n <= 32,
    ensures
        count_below(mask & low_bits(k), n) == count_below(mask, if n <= k {
            n
        } else {
            k
        }),
    decreases n,
{
    if n > 0 {
        let j = (n - 1) as nat;
        lemma_count_below_low_bits(mask, k, j);
        let ju = j as u32;
        let ku = k as u32;
        assert(((mask & (((1u32 << ku) - 1) as u32)) & (1u32 << ju) != 0) == (ju < ku && mask & (1u32
            << ju) != 0)) by (bit_vector)
            requires
                ju < 32,
                ku < 32,
        ;
    }
}

/// The sparse index counts the set bits below the local key, and names a slot
/// among the occupied ones.
pub proof fn lemma_sparse_index(mask: u32, k: nat)
    requires
        k < 32,
    ensures
        sparse_index(mask, k) == count_below(mask, k),
        is_set(mask, k) ==> sparse_index(mask, k) < popcount(mask),
        sparse_index(mask, k) <= popcount(mask),
{
    lemma_count_below_low_bits(mask, k, 32);
    lemma_count_below_le(mask, k + 1, 32);
}

/// Distinct occupied local keys have distinct slots, in ascending order.
pub proof fn lemma_count_below_strict(mask: u32, j: nat, k: nat)
    requires
        j < k <= 32,
        is_set(mask, j),
    ensures
        count_below(mask, j) < count_below(mask, k),
{
    lemma_count_below_le(mask, j + 1, k);
}

/// Setting bit `k` occupies it, leaves the other bits alone, and moves the
/// slots above `k` up by one if `k` was free.
pub proof fn lemma_set_bit(mask: u32, k: nat, j: nat)
    requires
        k < 32,
        j <= 32,
    ensures
        j < 32 ==> is_set(mask | bit(k), j) == (j == k || is_set(mask, j)),
        count_below(mask | bit(k), j) == count_below(mask, j) + if k < j && !is_set(
            mask,
            k,
        ) {
            1nat
        } else {
            0nat
        },
    decreases j,
{
    let ku = k as u32;
    if j < 32 {
        let ju = j as u32;
        assert(((mask | (1u32 << ku)) & (1u32 << ju) != 0) == (ju == ku || mask & (1u32 << ju) != 0))
            by (bit_vector)
            requires
                ju < 32,
                ku < 32,
        ;
    }
    if j > 0 {
        lemma_set_bit(mask, k, (j - 1) as nat);
    }
}

/// Clearing bit `k` frees it, leaves the other bits alone, and moves the
/// slots above `k` down by one if `k` was occupied.
pub proof fn lemma_clear_bit(mask: u32, k: nat, j: nat)
    requires
        k < 32,
        j <= 32,
    ensures
        j < 32 ==> is_set(mask & !bit(k), j) == (j != k && is_set(mask, j)),
        count_below(mask & !bit(k), j) + (if k < j && is_set(mask, k) {
            1nat
        } else {
            0nat
        }) == count_below(mask, j),
    decreases j,
{
    let ku = k as u32;
    if j < 32 {
        let ju = j as u32;
        assert(((mask & !(1u32 << ku)) & (1u32 << ju) != 0) == (ju != ku && mask & (1u32 << ju) != 0))
            by (bit_vector)
            requires
                ju < 32,
                ku < 32,
        ;
    }
    if j > 0 {
        lemma_clear_bit(mask, k, (j - 1) as nat);
    }
}

/// Every slot below the population count belongs to an occupied local key.
pub proof fn lemma_slot_has_key(mask: u32, i: nat, n: nat) -> (k: nat)
    requires
        n <= 32,
        i < count_below(mask, n),
    ensures
        k < n,
        is_set(mask, k),
        count_below(mask, k) == i,
    decreases n,
{
    let j = (n - 1) as nat;
    if i < count_below(mask, j) {
        lemma_slot_has_key(mask, i, j)
    } else {
        j
    }
}

/// The empty bitmap has no bit set.
pub proof fn lemma_empty_mask(k: nat)
    requires
        k <= 32,
    ensures
        count_below(0, k) == 0,
        !is_set(0, k),
    decreases k,
{
    if k < 32 {
        let ku = k as u32;
        assert(0u32 & (1u32 << ku) == 0) by (bit_vector);
    }
    if k > 0 {
        lemma_empty_mask((k - 1) as nat);
    }
}

/// A bitmap of one bit has population count 1.
pub proof fn lemma_one_bit(k: nat)
    requires
        k < 32,
    ensures
        popcount(bit(k)) == 1,
        is_set(bit(k), k),
        count_below(bit(k), k) == 0,
{
    lemma_empty_mask(32);
    lemma_empty_mask(k);
    lemma_set_bit(0, k, 32);
    lemma_set_bit(0, k, k);
    let b = bit(k);
    assert(0u32 | b == b) by (bit_vector);
}

/// A bitmap of two bits has population count 2.
pub proof fn lemma_two_bits(j: nat, k: nat)
    requires
        j < 32,
        k < 32,
        j != k,
    ensures
        popcount(bit(j) | bit(k)) == 2,
{
    lemma_one_bit(j);
    lemma_empty_mask(k);
    lemma_set_bit(0, j, k);
    lemma_set_bit(bit(j), k, 32);
    let b = bit(j);
    assert(0u32 | b == b) by (bit_vector);
}

/// A bitmap with a bit set is not zero, and one with a positive population
/// count has a bit set.
pub proof fn lemma_nonzero_mask(mask: u32)
    ensures
        (mask != 0) == (popcount(mask) > 0),
{
    if mask == 0 {
        lemma_empty_mask(32);
    } else {
        if popcount(mask) == 0 {
            assert forall|k: nat| k < 32 implies !is_set(mask, k) by {
                if is_set(mask, k) {
                    lemma_count_below_strict(mask, k, 32);
                }
            }
            assert(!is_set(mask, 0) && !is_set(mask, 1) && !is_set(mask, 2) && !is_set(mask, 3)
                && !is_set(mask, 4) && !is_set(mask, 5) && !is_set(mask, 6) && !is_set(mask, 7)
                && !is_set(mask, 8) && !is_set(mask, 9) && !is_set(mask, 10) && !is_set(mask, 11)
                && !is_set(mask, 12) && !is_set(mask, 13) && !is_set(mask, 14) && !is_set(mask, 15)
                && !is_set(mask, 16) && !is_set(mask, 17) && !is_set(mask, 18) && !is_set(mask, 19)
                && !is_set(mask, 20) && !is_set(mask, 21) && !is_set(mask, 22) && !is_set(mask, 23)
                && !is_set(mask, 24) && !is_set(mask, 25) && !is_set(mask, 26) && !is_set(mask, 27)
                && !is_set(mask, 28) && !is_set(mask, 29) && !is_set(mask, 30) && !is_set(mask, 31));
            assert(mask == 0) by (bit_vector)
                requires
                    mask & (1u32 << 0u32) == 0,
                    mask & (1u32 << 1u32) == 0,
                    mask & (1u32 << 2u32) == 0,
                    mask & (1u32 << 3u32) == 0,
                    mask & (1u32 << 4u32) == 0,
                    mask & (1u32 << 5u32) == 0,
                    mask & (1u32 << 6u32) == 0,
                    mask & (1u32 << 7u32) == 0,
                    mask & (1u32 << 8u32) == 0,
                    mask & (1u32 << 9u32) == 0,
                    mask & (1u32 << 10u32) == 0,
                    mask & (1u32 << 11u32) == 0,
                    mask & (1u32 << 12u32) == 0,
                    mask & (1u32 << 13u32) == 0,
                    mask & (1u32 << 14u32) == 0,
                    mask & (1u32 << 15u32) == 0,
                    mask & (1u32 << 16u32) == 0,
                    mask & (1u32 << 17u32) == 0,
                    mask & (1u32 << 18u32) == 0,
                    mask & (1u32 << 19u32) == 0,
                    mask & (1u32 << 20u32) == 0,
                    mask & (1u32 << 21u32) == 0,
                    mask & (1u32 << 22u32) == 0,
                    mask & (1u32 << 23u32) == 0,
                    mask & (1u32 << 24u32) == 0,
                    mask & (1u32 << 25u32) == 0,
                    mask & (1u32 << 26u32) == 0,
                    mask & (1u32 << 27u32) == 0,
                    mask & (1u32 << 28u32) == 0,
                    mask & (1u32 << 29u32) == 0,
                    mask & (1u32 << 30u32) == 0,
                    mask & (1u32 << 31u32) == 0,
            ;
        }
    }
}

/// Descending one level shifts the remaining hash right by 5 bits.
pub proof fn lemma_hash_at_step(hash: u64, level: nat)
    requires
        level < 12,
    ensures
        hash_at(hash, level + 1) == hash_at(hash, level) >> 5,
        hash_at(hash, 0) == hash,
{
    let l = level as u64;
    assert((hash >> ((5 * l) as u64)) >> 5 == hash >> ((5 * (l + 1)) as u64)) by (bit_vector)
        requires
            l < 12,
    ;
    assert(hash >> 0 == hash) by (bit_vector);
}

/// A local key is below 32.
pub proof fn lemma_local_key_bound(hash: u64)
    ensures
        local_key(hash) < 32,
{
    assert(hash & 31 < 32) by (bit_vector);
}

/// Two hashes that select the same local key on all thirteen levels are equal.
pub proof fn lemma_same_path_all_levels(a: u64, b: u64)
    requires
        same_path(a, b, 13),
    ensures
        a == b,
{
    assert(local_key_at(a, 0) == local_key_at(b, 0));
    assert(local_key_at(a, 1) == local_key_at(b, 1));
    assert(local_key_at(a, 2) == local_key_at(b, 2));
    assert(local_key_at(a, 3) == local_key_at(b, 3));
    assert(local_key_at(a, 4) == local_key_at(b, 4));
    assert(local_key_at(a, 5) == local_key_at(b, 5));
    assert(local_key_at(a, 6) == local_key_at(b, 6));
    assert(local_key_at(a, 7) == local_key_at(b, 7));
    assert(local_key_at(a, 8) == local_key_at(b, 8));
    assert(local_key_at(a, 9) == local_key_at(b, 9));
    assert(local_key_at(a, 10) == local_key_at(b, 10));
    assert(local_key_at(a, 11) == local_key_at(b, 11));
    assert(local_key_at(a, 12) == local_key_at(b, 12));
    assert(a == b) by (bit_vector)
        requires
            (a >> 0u64) & 31 == (b >> 0u64) & 31,
            (a >> 5u64) & 31 == (b >> 5u64) & 31,
            (a >> 10u64) & 31 == (b >> 10u64) & 31,
            (a >> 15u64) & 31 == (b >> 15u64) & 31,
            (a >> 20u64) & 31 == (b >> 20u64) & 31,
            (a >> 25u64) & 31 == (b >> 25u64) & 31,
            (a >> 30u64) & 31 == (b >> 30u64) & 31,
            (a >> 35u64) & 31 == (b >> 35u64) & 31,
            (a >> 40u64) & 31 == (b >> 40u64) & 31,
            (a >> 45u64) & 31 == (b >> 45u64) & 31,
            (a >> 50u64) & 31 == (b >> 50u64) & 31,
            (a >> 55u64) & 31 == (b >> 55u64) & 31,
            (a >> 60u64) & 31 == (b >> 60u64) & 31,
    ;
}

/// Counts the set bits of `x`.
///
/// Trusted: calls `u32::count_ones`, which std documents as returning the
/// number of ones in the binary representation of its argument. The contract
/// states that number as `popcount`.
#[verifier::external_body]
pub(crate) fn bit_count(x: u32) -> (r: usize)
    ensures
        r == popcount(x),
{
    x.count_ones() as usize
}

/// The slot of local key `index` in the packed entries of a node whose bitmap
/// is `mask`: the number of occupied local keys below `index`.
pub fn get_index(mask: u32, index: usize) -> (r: usize)
    requires
        is_set(mask, index as nat),
    ensures
        r == sparse_index(mask, index as nat),
        r == count_below(mask, index as nat),
        r < popcount(mask),
        r <= index,
{
    let bit: u32 = 1u32 << index;
    assert(bit >= 1) by (bit_vector)
        requires
            bit == 1u32 << index,
            index < 32,
    ;
    let bits_set_up_to_index: u32 = bit - 1;
    let masked: u32 = mask & bits_set_up_to_index;
    proof {
        lemma_sparse_index(mask, index as nat);
        lemma_count_below_le(mask, index as nat, index as nat);
    }
    bit_count(masked)
}

} // verus!
