//! The bits of a machine word as a set of small numbers: membership, counting
//! and the usual tricks for isolating and clearing the lowest member.

use vstd::prelude::*;

verus! {

/// Whether bit `j` of `m` is set.
pub open spec fn bit_is_set(m: u64, j: int) -> bool {
    0 <= j < 64 && (m >> (j as u64)) & 1 == 1
}

/// The number of set bits of `m` at positions below `k`.
pub open spec fn count_set_below(m: u64, k: int) -> nat
    decreases k,
{
    if k <= 0 {
        0
    } else {
        count_set_below(m, k - 1) + if bit_is_set(m, k - 1) {
            1nat
        } else {
            0nat
        }
    }
}

/// `u64::count_ones` returns the number of ones in the binary representation
/// of its argument, that is the number of set bits among its 64 positions.
pub assume_specification[ u64::count_ones ](i: u64) -> (r: u32)
    ensures
        r == count_set_below(i, 64),
;

proof fn lemma_bits_of_zero(j: u64)
    by (bit_vector)
    ensures
        (0u64 >> j) & 1 == 0,
{
}

proof fn lemma_bits_of_or(b: u64, e: u64, j: u64)
    by (bit_vector)
    requires
        e < 64,
        j < 64,
    ensures
        ((b | (1u64 << e)) >> j) & 1 == (if j == e {
            1u64
        } else {
            (b >> j) & 1
        }),
{
}

proof fn lemma_bits_of_low_mask(b: u64, e: u64, j: u64)
    by (bit_vector)
    requires
        e < 64,
        j < 64,
    ensures
        (1u64 << e) >= 1,
        ((b & (((1u64 << e) - 1) as u64)) >> j) & 1 == (if j < e {
            (b >> j) & 1
        } else {
            0u64
        }),
{
}

proof fn lemma_bits_clear_lowest(m: u64, t: u64, j: u64)
    by (bit_vector)
    requires
        t < 64,
        j < 64,
        (m >> t) & 1 == 1,
        m << ((64 - t) as u64) == 0,
    ensures
        m >= 1,
        ((m & ((m - 1) as u64)) >> j) & 1 == (if j == t {
            0u64
        } else {
            (m >> j) & 1
        }),
{
}

proof fn lemma_bits_lowest(m: u64, t: u64, j: u64)
    by (bit_vector)
    requires
        t < 64,
        j < 64,
        (m >> t) & 1 == 1,
        m << ((64 - t) as u64) == 0,
    ensures
        !m < 0xffff_ffff_ffff_ffffu64,
        ((m & ((!m + 1) as u64)) >> j) & 1 == (if j == t {
            1u64
        } else {
            0u64
        }),
{
}

proof fn lemma_bits_of_xor(u: u64, low: u64, j: u64)
    by (bit_vector)
    requires
        j < 64,
    ensures
        ((u ^ low) >> j) & 1 == ((u >> j) & 1) ^ ((low >> j) & 1),
        1u64 ^ 1u64 == 0,
        1u64 ^ 0u64 == 1,
        0u64 ^ 1u64 == 1,
        0u64 ^ 0u64 == 0,
        ((u >> j) & 1) == 0 || ((u >> j) & 1) == 1,
{
}

/// The empty word has no set bit.
pub proof fn lemma_zero_has_no_bits()
    ensures
        forall|j: int| !bit_is_set(0, j),
        forall|k: int| count_set_below(0, k) == 0,
{
    assert forall|j: int| !bit_is_set(0, j) by {
        if 0 <= j < 64 {
            lemma_bits_of_zero(j as u64);
        }
    }
    assert forall|k: int| count_set_below(0, k) == 0 by {
        lemma_count_of_zero(k);
    }
}

proof fn lemma_count_of_zero(k: int)
    ensures
        count_set_below(0, k) == 0,
    decreases k,
{
    if k > 0 {
        lemma_count_of_zero(k - 1);
        lemma_bits_of_zero((k - 1) as u64);
    }
}

/// Setting bit `e` adds `e` to the members and changes no other bit.
pub proof fn lemma_insert_bit(b: u64, e: int, r: u64)
    requires
        0 <= e < 64,
        r == b | (1u64 << (e as u64)),
    ensures
        forall|j: int| #[trigger] bit_is_set(r, j) <==> (j == e || bit_is_set(b, j)),
{
    assert forall|j: int| #[trigger] bit_is_set(r, j) <==> (j == e || bit_is_set(b, j)) by {
        if 0 <= j < 64 {
            lemma_bits_of_or(b, e as u64, j as u64);
        }
    }
}

/// Setting a bit that was clear adds one to every count that reaches above it.
pub proof fn lemma_count_insert_bit(b: u64, e: int, r: u64, k: int)
    requires
        0 <= e < 64,
        0 <= k <= 64,
        !bit_is_set(b, e),
        r == b | (1u64 << (e as u64)),
    ensures
        count_set_below(r, k) == count_set_below(b, k) + if e < k {
            1nat
        } else {
            0nat
        },
    decreases k,
{
    if k > 0 {
        lemma_count_insert_bit(b, e, r, k - 1);
        lemma_insert_bit(b, e, r);
    }
}

/// Masking with `(1 << e) - 1` keeps exactly the bits below `e`.
pub proof fn lemma_low_mask(b: u64, e: int, r: u64)
    requires
        0 <= e < 64,
        r == b & (((1u64 << (e as u64)) - 1) as u64),
    ensures
        (1u64 << (e as u64)) >= 1,
        forall|j: int| #[trigger] bit_is_set(r, j) <==> (j < e && bit_is_set(b, j)),
{
    lemma_bits_of_low_mask(b, e as u64, 0);
    assert forall|j: int| #[trigger] bit_is_set(r, j) <==> (j < e && bit_is_set(b, j)) by {
        if 0 <= j < 64 {
            lemma_bits_of_low_mask(b, e as u64, j as u64);
        }
    }
}

/// Counting the bits of `b & ((1 << e) - 1)` counts the bits of `b` below `e`.
pub proof fn lemma_count_low_mask(b: u64, e: int, r: u64, k: int)
    requires
        0 <= e < 64,
        0 <= k <= 64,
        r == b & (((1u64 << (e as u64)) - 1) as u64),
    ensures
        count_set_below(r, k) == count_set_below(
            b,
            if k < e {
                k
            } else {
                e
            },
        ),
    decreases k,
{
    if k > 0 {
        lemma_count_low_mask(b, e, r, k - 1);
        lemma_low_mask(b, e, r);
    }
}

/// For a word that is not zero, `trailing_zeros` is the position of its lowest
/// set bit.
pub proof fn lemma_lowest_bit(m: u64)
    requires
        m != 0,
    ensures
        m.trailing_zeros() < 64,
        bit_is_set(m, m.trailing_zeros() as int),
        forall|j: int| 0 <= j < m.trailing_zeros() ==> !#[trigger] bit_is_set(m, j),
{
    vstd::std_specs::bits::axiom_u64_trailing_zeros(m);
    let t = m.trailing_zeros();
    assert forall|j: int| 0 <= j < t implies !#[trigger] bit_is_set(m, j) by {
        assert((m >> (j as u64)) & 1u64 == 0u64);
    }
}

/// `m & (m - 1)` is `m` without its lowest set bit.
pub proof fn lemma_clear_lowest_bit(m: u64, r: u64)
    requires
        m != 0,
        m >= 1 ==> r == m & ((m - 1) as u64),
    ensures
        m >= 1,
        forall|j: int|
            #[trigger] bit_is_set(r, j) <==> (bit_is_set(m, j) && j != m.trailing_zeros()),
{
    vstd::std_specs::bits::axiom_u64_trailing_zeros(m);
    let t = m.trailing_zeros() as u64;
    lemma_bits_clear_lowest(m, t, 0);
    assert forall|j: int|
        #[trigger] bit_is_set(r, j) <==> (bit_is_set(m, j) && j != m.trailing_zeros()) by {
        if 0 <= j < 64 {
            lemma_bits_clear_lowest(m, t, j as u64);
        }
    }
}

/// `m & (!m + 1)` is the lowest set bit of `m` alone.
pub proof fn lemma_isolate_lowest_bit(m: u64, low: u64)
    requires
        m != 0,
        !m < 0xffff_ffff_ffff_ffffu64 ==> low == m & ((!m + 1) as u64),
    ensures
        !m < 0xffff_ffff_ffff_ffffu64,
        low.trailing_zeros() == m.trailing_zeros(),
        forall|j: int| #[trigger] bit_is_set(low, j) <==> j == m.trailing_zeros(),
{
    vstd::std_specs::bits::axiom_u64_trailing_zeros(m);
    let t = m.trailing_zeros() as u64;
    lemma_bits_lowest(m, t, t);
    assert forall|j: int| #[trigger] bit_is_set(low, j) <==> j == m.trailing_zeros() by {
        if 0 <= j < 64 {
            lemma_bits_lowest(m, t, j as u64);
        }
    }
    assert(bit_is_set(low, t as int));
    if low == 0 {
        lemma_bits_of_zero(t);
    }
    lemma_lowest_bit(low);
    assert(bit_is_set(low, low.trailing_zeros() as int));
}

/// A bit of `u ^ low` is set where exactly one of the two has it set.
pub proof fn lemma_xor_bits(u: u64, low: u64, r: u64)
    requires
        r == u ^ low,
    ensures
        forall|j: int| #[trigger] bit_is_set(r, j) <==> (bit_is_set(u, j) != bit_is_set(low, j)),
{
    assert forall|j: int| #[trigger] bit_is_set(r, j) <==> (bit_is_set(u, j) != bit_is_set(low, j)) by {
        if 0 <= j < 64 {
            lemma_bits_of_xor(u, low, j as u64);
            lemma_bits_of_xor(low, u, j as u64);
        }
    }
}

/// Clearing the lowest set bit takes one from every count that reaches above it.
pub proof fn lemma_count_clear_lowest_bit(m: u64, r: u64, k: int)
    requires
        m != 0,
        m >= 1 ==> r == m & ((m - 1) as u64),
        0 <= k <= 64,
    ensures
        count_set_below(m, k) == count_set_below(r, k) + if m.trailing_zeros() < k {
            1nat
        } else {
            0nat
        },
    decreases k,
{
    if k > 0 {
        lemma_count_clear_lowest_bit(m, r, k - 1);
        lemma_clear_lowest_bit(m, r);
        lemma_lowest_bit(m);
    }
}

} // verus!
