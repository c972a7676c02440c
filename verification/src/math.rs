//! Factorials, binomial coefficients, and the rank/unrank functions for
//! permutations and combinations, together with the parity of a permutation.

use crate::bits::{
    bit_is_set, count_set_below, lemma_clear_lowest_bit, lemma_count_insert_bit,
    lemma_count_low_mask, lemma_insert_bit, lemma_isolate_lowest_bit, lemma_low_mask,
    lemma_lowest_bit, lemma_xor_bits, lemma_zero_has_no_bits,
};
use vstd::arithmetic::div_mod::{
    lemma_basic_div, lemma_div_decreases, lemma_fundamental_div_mod,
    lemma_fundamental_div_mod_converse, lemma_small_mod,
};
use vstd::arithmetic::power2::{lemma2_to64, lemma_pow2_strictly_increases, lemma_pow2_unfold, pow2};
use vstd::prelude::*;

verus! {

/// n! for a natural number n.
pub open spec fn spec_factorial(n: nat) -> nat
    decreases n,
{
    if n == 0 {
        1
    } else {
        n * spec_factorial((n - 1) as nat)
    }
}

/// The number of k-element subsets of an n-element set, by Pascal's rule.
pub open spec fn spec_binomial(n: nat, k: nat) -> nat
    decreases n,
{
    if k == 0 {
        1
    } else if n == 0 {
        0
    } else {
        spec_binomial((n - 1) as nat, (k - 1) as nat) + spec_binomial((n - 1) as nat, k)
    }
}

pub const FACTORIALS: [i64; 21] = [
    1,
    1,
    2,
    6,
    24,
    120,
    720,
    5040,
    40320,
    362880,
    3628800,
    39916800,
    479001600,
    6227020800,
    87178291200,
    1307674368000,
    20922789888000,
    355687428096000,
    6402373705728000,
    121645100408832000,
    2432902008176640000,
];

/// The first twenty-one factorials are the entries of `FACTORIALS`.
pub proof fn lemma_factorial_table(n: nat)
    requires
        n <= 20,
    ensures
        spec_factorial(n) == FACTORIALS[n as int],
        1 <= spec_factorial(n) <= 2432902008176640000,
{
    assert(spec_factorial(0) == 1 && FACTORIALS[0] == 1);
    assert(spec_factorial(1) == 1 && FACTORIALS[1] == 1);
    assert(spec_factorial(2) == 2 && FACTORIALS[2] == 2);
    assert(spec_factorial(3) == 6 && FACTORIALS[3] == 6);
    assert(spec_factorial(4) == 24 && FACTORIALS[4] == 24);
    assert(spec_factorial(5) == 120 && FACTORIALS[5] == 120);
    assert(spec_factorial(6) == 720 && FACTORIALS[6] == 720);
    assert(spec_factorial(7) == 5040 && FACTORIALS[7] == 5040);
    assert(spec_factorial(8) == 40320 && FACTORIALS[8] == 40320);
    assert(spec_factorial(9) == 362880 && FACTORIALS[9] == 362880);
    assert(spec_factorial(10) == 3628800 && FACTORIALS[10] == 3628800);
    assert(spec_factorial(11) == 39916800 && FACTORIALS[11] == 39916800);
    assert(spec_factorial(12) == 479001600 && FACTORIALS[12] == 479001600);
    assert(spec_factorial(13) == 6227020800 && FACTORIALS[13] == 6227020800);
    assert(spec_factorial(14) == 87178291200 && FACTORIALS[14] == 87178291200);
    assert(spec_factorial(15) == 1307674368000 && FACTORIALS[15] == 1307674368000);
    assert(spec_factorial(16) == 20922789888000 && FACTORIALS[16] == 20922789888000);
    assert(spec_factorial(17) == 355687428096000 && FACTORIALS[17] == 355687428096000);
    assert(spec_factorial(18) == 6402373705728000 && FACTORIALS[18] == 6402373705728000);
    assert(spec_factorial(19) == 121645100408832000 && FACTORIALS[19] == 121645100408832000);
    assert(spec_factorial(20) == 2432902008176640000 && FACTORIALS[20] == 2432902008176640000);
}

/// n! for 0 <= n <= 20.
pub fn factorial(n: i64) -> (r: i64)
    requires
        0 <= n <= 20,
    ensures
        r == spec_factorial(n as nat),
{
    proof {
        lemma_factorial_table(n as nat);
    }
    FACTORIALS[n as usize]
}

pub const PASCAL: [[i16; 13]; 13] = [
    [1, 0, 0, 0, 0, 0, 0, 0, 0, 0, 0, 0, 0],
    [1, 1, 0, 0, 0, 0, 0, 0, 0, 0, 0, 0, 0],
    [1, 2, 1, 0, 0, 0, 0, 0, 0, 0, 0, 0, 0],
    [1, 3, 3, 1, 0, 0, 0, 0, 0, 0, 0, 0, 0],
    [1, 4, 6, 4, 1, 0, 0, 0, 0, 0, 0, 0, 0],
    [1, 5, 10, 10, 5, 1, 0, 0, 0, 0, 0, 0, 0],
    [1, 6, 15, 20, 15, 6, 1, 0, 0, 0, 0, 0, 0],
    [1, 7, 21, 35, 35, 21, 7, 1, 0, 0, 0, 0, 0],
    [1, 8, 28, 56, 70, 56, 28, 8, 1, 0, 0, 0, 0],
    [1, 9, 36, 84, 126, 126, 84, 36, 9, 1, 0, 0, 0],
    [1, 10, 45, 120, 210, 252, 210, 120, 45, 10, 1, 0, 0],
    [1, 11, 55, 165, 330, 462, 462, 330, 165, 55, 11, 1, 0],
    [1, 12, 66, 220, 495, 792, 924, 792, 495, 220, 66, 12, 1],
];

proof fn lemma_pascal_row_0()
    ensures
        spec_binomial(0, 0) == 1,
        PASCAL[0][0] == 1,
        spec_binomial(0, 1) == 0,
        PASCAL[0][1] == 0,
        spec_binomial(0, 2) == 0,
        PASCAL[0][2] == 0,
        spec_binomial(0, 3) == 0,
        PASCAL[0][3] == 0,
        spec_binomial(0, 4) == 0,
        PASCAL[0][4] == 0,
        spec_binomial(0, 5) == 0,
        PASCAL[0][5] == 0,
        spec_binomial(0, 6) == 0,
        PASCAL[0][6] == 0,
        spec_binomial(0, 7) == 0,
        PASCAL[0][7] == 0,
        spec_binomial(0, 8) == 0,
        PASCAL[0][8] == 0,
        spec_binomial(0, 9) == 0,
        PASCAL[0][9] == 0,
        spec_binomial(0, 10) == 0,
        PASCAL[0][10] == 0,
        spec_binomial(0, 11) == 0,
        PASCAL[0][11] == 0,
        spec_binomial(0, 12) == 0,
        PASCAL[0][12] == 0,
{
}

proof fn lemma_pascal_row_1()
    ensures
        spec_binomial(1, 0) == 1,
        PASCAL[1][0] == 1,
        spec_binomial(1, 1) == 1,
        PASCAL[1][1] == 1,
        spec_binomial(1, 2) == 0,
        PASCAL[1][2] == 0,
        spec_binomial(1, 3) == 0,
        PASCAL[1][3] == 0,
        spec_binomial(1, 4) == 0,
        PASCAL[1][4] == 0,
        spec_binomial(1, 5) == 0,
        PASCAL[1][5] == 0,
        spec_binomial(1, 6) == 0,
        PASCAL[1][6] == 0,
        spec_binomial(1, 7) == 0,
        PASCAL[1][7] == 0,
        spec_binomial(1, 8) == 0,
        PASCAL[1][8] == 0,
        spec_binomial(1, 9) == 0,
        PASCAL[1][9] == 0,
        spec_binomial(1, 10) == 0,
        PASCAL[1][10] == 0,
        spec_binomial(1, 11) == 0,
        PASCAL[1][11] == 0,
        spec_binomial(1, 12) == 0,
        PASCAL[1][12] == 0,
{
    lemma_pascal_row_0();
}

proof fn lemma_pascal_row_2()
    ensures
        spec_binomial(2, 0) == 1,
        PASCAL[2][0] == 1,
        spec_binomial(2, 1) == 2,
        PASCAL[2][1] == 2,
        spec_binomial(2, 2) == 1,
        PASCAL[2][2] == 1,
        spec_binomial(2, 3) == 0,
        PASCAL[2][3] == 0,
        spec_binomial(2, 4) == 0,
        PASCAL[2][4] == 0,
        spec_binomial(2, 5) == 0,
        PASCAL[2][5] == 0,
        spec_binomial(2, 6) == 0,
        PASCAL[2][6] == 0,
        spec_binomial(2, 7) == 0,
        PASCAL[2][7] == 0,
        spec_binomial(2, 8) == 0,
        PASCAL[2][8] == 0,
        spec_binomial(2, 9) == 0,
        PASCAL[2][9] == 0,
        spec_binomial(2, 10) == 0,
        PASCAL[2][10] == 0,
        spec_binomial(2, 11) == 0,
        PASCAL[2][11] == 0,
        spec_binomial(2, 12) == 0,
        PASCAL[2][12] == 0,
{
    lemma_pascal_row_1();
}

proof fn lemma_pascal_row_3()
    ensures
        spec_binomial(3, 0) == 1,
        PASCAL[3][0] == 1,
        spec_binomial(3, 1) == 3,
        PASCAL[3][1] == 3,
        spec_binomial(3, 2) == 3,
        PASCAL[3][2] == 3,
        spec_binomial(3, 3) == 1,
        PASCAL[3][3] == 1,
        spec_binomial(3, 4) == 0,
        PASCAL[3][4] == 0,
        spec_binomial(3, 5) == 0,
        PASCAL[3][5] == 0,
        spec_binomial(3, 6) == 0,
        PASCAL[3][6] == 0,
        spec_binomial(3, 7) == 0,
        PASCAL[3][7] == 0,
        spec_binomial(3, 8) == 0,
        PASCAL[3][8] == 0,
        spec_binomial(3, 9) == 0,
        PASCAL[3][9] == 0,
        spec_binomial(3, 10) == 0,
        PASCAL[3][10] == 0,
        spec_binomial(3, 11) == 0,
        PASCAL[3][11] == 0,
        spec_binomial(3, 12) == 0,
        PASCAL[3][12] == 0,
{
    lemma_pascal_row_2();
}

proof fn lemma_pascal_row_4()
    ensures
        spec_binomial(4, 0) == 1,
        PASCAL[4][0] == 1,
        spec_binomial(4, 1) == 4,
        PASCAL[4][1] == 4,
        spec_binomial(4, 2) == 6,
        PASCAL[4][2] == 6,
        spec_binomial(4, 3) == 4,
        PASCAL[4][3] == 4,
        spec_binomial(4, 4) == 1,
        PASCAL[4][4] == 1,
        spec_binomial(4, 5) == 0,
        PASCAL[4][5] == 0,
        spec_binomial(4, 6) == 0,
        PASCAL[4][6] == 0,
        spec_binomial(4, 7) == 0,
        PASCAL[4][7] == 0,
        spec_binomial(4, 8) == 0,
        PASCAL[4][8] == 0,
        spec_binomial(4, 9) == 0,
        PASCAL[4][9] == 0,
        spec_binomial(4, 10) == 0,
        PASCAL[4][10] == 0,
        spec_binomial(4, 11) == 0,
        PASCAL[4][11] == 0,
        spec_binomial(4, 12) == 0,
        PASCAL[4][12] == 0,
{
    lemma_pascal_row_3();
}

proof fn lemma_pascal_row_5()
    ensures
        spec_binomial(5, 0) == 1,
        PASCAL[5][0] == 1,
        spec_binomial(5, 1) == 5,
        PASCAL[5][1] == 5,
        spec_binomial(5, 2) == 10,
        PASCAL[5][2] == 10,
        spec_binomial(5, 3) == 10,
        PASCAL[5][3] == 10,
        spec_binomial(5, 4) == 5,
        PASCAL[5][4] == 5,
        spec_binomial(5, 5) == 1,
        PASCAL[5][5] == 1,
        spec_binomial(5, 6) == 0,
        PASCAL[5][6] == 0,
        spec_binomial(5, 7) == 0,
        PASCAL[5][7] == 0,
        spec_binomial(5, 8) == 0,
        PASCAL[5][8] == 0,
        spec_binomial(5, 9) == 0,
        PASCAL[5][9] == 0,
        spec_binomial(5, 10) == 0,
        PASCAL[5][10] == 0,
        spec_binomial(5, 11) == 0,
        PASCAL[5][11] == 0,
        spec_binomial(5, 12) == 0,
        PASCAL[5][12] == 0,
{
    lemma_pascal_row_4();
}

proof fn lemma_pascal_row_6()
    ensures
        spec_binomial(6, 0) == 1,
        PASCAL[6][0] == 1,
        spec_binomial(6, 1) == 6,
        PASCAL[6][1] == 6,
        spec_binomial(6, 2) == 15,
        PASCAL[6][2] == 15,
        spec_binomial(6, 3) == 20,
        PASCAL[6][3] == 20,
        spec_binomial(6, 4) == 15,
        PASCAL[6][4] == 15,
        spec_binomial(6, 5) == 6,
        PASCAL[6][5] == 6,
        spec_binomial(6, 6) == 1,
        PASCAL[6][6] == 1,
        spec_binomial(6, 7) == 0,
        PASCAL[6][7] == 0,
        spec_binomial(6, 8) == 0,
        PASCAL[6][8] == 0,
        spec_binomial(6, 9) == 0,
        PASCAL[6][9] == 0,
        spec_binomial(6, 10) == 0,
        PASCAL[6][10] == 0,
        spec_binomial(6, 11) == 0,
        PASCAL[6][11] == 0,
        spec_binomial(6, 12) == 0,
        PASCAL[6][12] == 0,
{
    lemma_pascal_row_5();
}

proof fn lemma_pascal_row_7()
    ensures
        spec_binomial(7, 0) == 1,
        PASCAL[7][0] == 1,
        spec_binomial(7, 1) == 7,
        PASCAL[7][1] == 7,
        spec_binomial(7, 2) == 21,
        PASCAL[7][2] == 21,
        spec_binomial(7, 3) == 35,
        PASCAL[7][3] == 35,
        spec_binomial(7, 4) == 35,
        PASCAL[7][4] == 35,
        spec_binomial(7, 5) == 21,
        PASCAL[7][5] == 21,
        spec_binomial(7, 6) == 7,
        PASCAL[7][6] == 7,
        spec_binomial(7, 7) == 1,
        PASCAL[7][7] == 1,
        spec_binomial(7, 8) == 0,
        PASCAL[7][8] == 0,
        spec_binomial(7, 9) == 0,
        PASCAL[7][9] == 0,
        spec_binomial(7, 10) == 0,
        PASCAL[7][10] == 0,
        spec_binomial(7, 11) == 0,
        PASCAL[7][11] == 0,
        spec_binomial(7, 12) == 0,
        PASCAL[7][12] == 0,
{
    lemma_pascal_row_6();
}

proof fn lemma_pascal_row_8()
    ensures
        spec_binomial(8, 0) == 1,
        PASCAL[8][0] == 1,
        spec_binomial(8, 1) == 8,
        PASCAL[8][1] == 8,
        spec_binomial(8, 2) == 28,
        PASCAL[8][2] == 28,
        spec_binomial(8, 3) == 56,
        PASCAL[8][3] == 56,
        spec_binomial(8, 4) == 70,
        PASCAL[8][4] == 70,
        spec_binomial(8, 5) == 56,
        PASCAL[8][5] == 56,
        spec_binomial(8, 6) == 28,
        PASCAL[8][6] == 28,
        spec_binomial(8, 7) == 8,
        PASCAL[8][7] == 8,
        spec_binomial(8, 8) == 1,
        PASCAL[8][8] == 1,
        spec_binomial(8, 9) == 0,
        PASCAL[8][9] == 0,
        spec_binomial(8, 10) == 0,
        PASCAL[8][10] == 0,
        spec_binomial(8, 11) == 0,
        PASCAL[8][11] == 0,
        spec_binomial(8, 12) == 0,
        PASCAL[8][12] == 0,
{
    lemma_pascal_row_7();
}

proof fn lemma_pascal_row_9()
    ensures
        spec_binomial(9, 0) == 1,
        PASCAL[9][0] == 1,
        spec_binomial(9, 1) == 9,
        PASCAL[9][1] == 9,
        spec_binomial(9, 2) == 36,
        PASCAL[9][2] == 36,
        spec_binomial(9, 3) == 84,
        PASCAL[9][3] == 84,
        spec_binomial(9, 4) == 126,
        PASCAL[9][4] == 126,
        spec_binomial(9, 5) == 126,
        PASCAL[9][5] == 126,
        spec_binomial(9, 6) == 84,
        PASCAL[9][6] == 84,
        spec_binomial(9, 7) == 36,
        PASCAL[9][7] == 36,
        spec_binomial(9, 8) == 9,
        PASCAL[9][8] == 9,
        spec_binomial(9, 9) == 1,
        PASCAL[9][9] == 1,
        spec_binomial(9, 10) == 0,
        PASCAL[9][10] == 0,
        spec_binomial(9, 11) == 0,
        PASCAL[9][11] == 0,
        spec_binomial(9, 12) == 0,
        PASCAL[9][12] == 0,
{
    lemma_pascal_row_8();
}

proof fn lemma_pascal_row_10()
    ensures
        spec_binomial(10, 0) == 1,
        PASCAL[10][0] == 1,
        spec_binomial(10, 1) == 10,
        PASCAL[10][1] == 10,
        spec_binomial(10, 2) == 45,
        PASCAL[10][2] == 45,
        spec_binomial(10, 3) == 120,
        PASCAL[10][3] == 120,
        spec_binomial(10, 4) == 210,
        PASCAL[10][4] == 210,
        spec_binomial(10, 5) == 252,
        PASCAL[10][5] == 252,
        spec_binomial(10, 6) == 210,
        PASCAL[10][6] == 210,
        spec_binomial(10, 7) == 120,
        PASCAL[10][7] == 120,
        spec_binomial(10, 8) == 45,
        PASCAL[10][8] == 45,
        spec_binomial(10, 9) == 10,
        PASCAL[10][9] == 10,
        spec_binomial(10, 10) == 1,
        PASCAL[10][10] == 1,
        spec_binomial(10, 11) == 0,
        PASCAL[10][11] == 0,
        spec_binomial(10, 12) == 0,
        PASCAL[10][12] == 0,
{
    lemma_pascal_row_9();
}

proof fn lemma_pascal_row_11()
    ensures
        spec_binomial(11, 0) == 1,
        PASCAL[11][0] == 1,
        spec_binomial(11, 1) == 11,
        PASCAL[11][1] == 11,
        spec_binomial(11, 2) == 55,
        PASCAL[11][2] == 55,
        spec_binomial(11, 3) == 165,
        PASCAL[11][3] == 165,
        spec_binomial(11, 4) == 330,
        PASCAL[11][4] == 330,
        spec_binomial(11, 5) == 462,
        PASCAL[11][5] == 462,
        spec_binomial(11, 6) == 462,
        PASCAL[11][6] == 462,
        spec_binomial(11, 7) == 330,
        PASCAL[11][7] == 330,
        spec_binomial(11, 8) == 165,
        PASCAL[11][8] == 165,
        spec_binomial(11, 9) == 55,
        PASCAL[11][9] == 55,
        spec_binomial(11, 10) == 11,
        PASCAL[11][10] == 11,
        spec_binomial(11, 11) == 1,
        PASCAL[11][11] == 1,
        spec_binomial(11, 12) == 0,
        PASCAL[11][12] == 0,
{
    lemma_pascal_row_10();
}

proof fn lemma_pascal_row_12()
    ensures
        spec_binomial(12, 0) == 1,
        PASCAL[12][0] == 1,
        spec_binomial(12, 1) == 12,
        PASCAL[12][1] == 12,
        spec_binomial(12, 2) == 66,
        PASCAL[12][2] == 66,
        spec_binomial(12, 3) == 220,
        PASCAL[12][3] == 220,
        spec_binomial(12, 4) == 495,
        PASCAL[12][4] == 495,
        spec_binomial(12, 5) == 792,
        PASCAL[12][5] == 792,
        spec_binomial(12, 6) == 924,
        PASCAL[12][6] == 924,
        spec_binomial(12, 7) == 792,
        PASCAL[12][7] == 792,
        spec_binomial(12, 8) == 495,
        PASCAL[12][8] == 495,
        spec_binomial(12, 9) == 220,
        PASCAL[12][9] == 220,
        spec_binomial(12, 10) == 66,
        PASCAL[12][10] == 66,
        spec_binomial(12, 11) == 12,
        PASCAL[12][11] == 12,
        spec_binomial(12, 12) == 1,
        PASCAL[12][12] == 1,
{
    lemma_pascal_row_11();
}

/// Every entry of `PASCAL` is the binomial coefficient of its row and column.
pub proof fn lemma_pascal_table(n: nat, k: nat)
    requires
        n < 13,
        k < 13,
    ensures
        PASCAL[n as int][k as int] == spec_binomial(n, k),
        spec_binomial(n, k) <= 924,
{
    lemma_pascal_row_0();
    lemma_pascal_row_1();
    lemma_pascal_row_2();
    lemma_pascal_row_3();
    lemma_pascal_row_4();
    lemma_pascal_row_5();
    lemma_pascal_row_6();
    lemma_pascal_row_7();
    lemma_pascal_row_8();
    lemma_pascal_row_9();
    lemma_pascal_row_10();
    lemma_pascal_row_11();
    lemma_pascal_row_12();
}

/// No subset is larger than the set it is taken from.
pub proof fn lemma_binomial_zero(n: nat, k: nat)
    requires
        k > n,
    ensures
        spec_binomial(n, k) == 0,
    decreases n,
{
    if n > 0 {
        lemma_binomial_zero((n - 1) as nat, (k - 1) as nat);
        lemma_binomial_zero((n - 1) as nat, k);
    }
}

/// There is exactly one way to take everything.
pub proof fn lemma_binomial_all(n: nat)
    ensures
        spec_binomial(n, n) == 1,
    decreases n,
{
    if n > 0 {
        lemma_binomial_all((n - 1) as nat);
        lemma_binomial_zero((n - 1) as nat, n);
    }
}

/// Choosing k elements is choosing the n - k that stay behind.
pub proof fn lemma_binomial_symmetry(n: nat, k: nat)
    requires
        k <= n,
    ensures
        spec_binomial(n, k) == spec_binomial(n, (n - k) as nat),
    decreases n,
{
    if k == 0 || k == n {
        lemma_binomial_all(n);
    } else {
        lemma_binomial_symmetry((n - 1) as nat, (k - 1) as nat);
        lemma_binomial_symmetry((n - 1) as nat, k);
    }
}

/// The absorption identity: (k + 1) * C(n, k + 1) == (n - k) * C(n, k).
pub proof fn lemma_binomial_absorb(n: nat, k: nat)
    ensures
        (k + 1) * spec_binomial(n, k + 1) == (n - k) * spec_binomial(n, k),
    decreases n,
{
    if k > n {
        lemma_binomial_zero(n, k);
        lemma_binomial_zero(n, k + 1);
        assert((k + 1) * 0 == 0 && (n - k) * 0 == 0) by (nonlinear_arith);
    } else if n == 0 {
        assert(spec_binomial(0, 1) == 0);
        assert((k + 1) * 0 == 0 && (n - k) * 1 == 0) by (nonlinear_arith)
            requires
                n == 0,
                k == 0,
        ;
    } else if k == 0 {
        let m = (n - 1) as nat;
        lemma_binomial_absorb(m, 0);
        assert(spec_binomial(m, 0) == 1);
        assert(spec_binomial(n, 0) == 1);
        assert(spec_binomial(n, 1) == 1 + spec_binomial(m, 1));
        let x = spec_binomial(m, 1);
        let y = spec_binomial(m, 0);
        assert(x == m) by (nonlinear_arith)
            requires
                (0 + 1) * x == (m - 0) * y,
                y == 1,
        ;
        let u = spec_binomial(n, 1);
        let v = spec_binomial(n, 0);
        assert((0 + 1) * u == (n - 0) * v) by (nonlinear_arith)
            requires
                u == n,
                v == 1,
        ;
    } else {
        let m = (n - 1) as nat;
        let a = spec_binomial(m, (k - 1) as nat);
        let b = spec_binomial(m, k);
        let c = spec_binomial(m, k + 1);
        lemma_binomial_absorb(m, (k - 1) as nat);
        lemma_binomial_absorb(m, k);
        assert(k * b == (m - (k - 1)) * a);
        assert((k + 1) * c == (m - k) * b);
        assert(spec_binomial(n, k + 1) == b + c);
        assert(spec_binomial(n, k) == a + b);
        assert((k + 1) * (b + c) == (n - k) * (a + b)) by (nonlinear_arith)
            requires
                k * b == (m - (k - 1)) * a,
                (k + 1) * c == (m - k) * b,
                m == n - 1,
        ;
    }
}

/// Whether the running product that `binomial` keeps stays within an `i64`.
pub open spec fn binomial_fits(n: int, k: int) -> bool {
    n < 13 || k > n || forall|j: int|
        0 <= j < k && j < n - k ==> #[trigger] spec_binomial(n as nat, j as nat) * (n - j)
            <= i64::MAX
}

/// The binomial coefficient C(n, k); 0 when k > n.
pub fn binomial(n: i64, k: i64) -> (r: i64)
    requires
        0 <= n,
        0 <= k,
        binomial_fits(n as int, k as int),
    ensures
        r == spec_binomial(n as nat, k as nat),
{
    if k > n {
        proof {
            lemma_binomial_zero(n as nat, k as nat);
        }
        return 0;
    }
    if n < 13 {
        proof {
            lemma_pascal_table(n as nat, k as nat);
        }
        return PASCAL[n as usize][k as usize] as i64;
    }
    let m: i64 = if k < n - k { k } else { n - k };
    proof {
        lemma_binomial_symmetry(n as nat, k as nat);
    }
    let mut result: i64 = 1;
    let mut i: i64 = 0;
    while i < m
        invariant
            0 <= i <= m,
            m <= k,
            m <= n - k,
            0 <= n,
            result == spec_binomial(n as nat, i as nat),
            forall|j: int|
                0 <= j < k && j < n - k ==> #[trigger] spec_binomial(n as nat, j as nat) * (n - j)
                    <= i64::MAX,
        decreases m - i,
    {
        proof {
            lemma_binomial_absorb(n as nat, i as nat);
            let c = spec_binomial(n as nat, i as nat);
            let d = spec_binomial(n as nat, (i + 1) as nat);
            assert(c * (n - i) <= i64::MAX);
            assert(c * (n - i) == (n - i) * c) by (nonlinear_arith);
            assert(((i + 1) * d) / (i + 1) as int == d) by (nonlinear_arith)
                requires
                    i + 1 > 0,
            ;
        }
        result = result * (n - i) / (i + 1);
        i += 1;
    }
    result
}

/// The number of elements of `s` that are below `v`.
pub open spec fn count_less(s: Seq<u8>, v: int) -> nat
    decreases s.len(),
{
    if s.len() == 0 {
        0
    } else {
        count_less(s.drop_last(), v) + if (s.last() as int) < v {
            1nat
        } else {
            0nat
        }
    }
}

/// The number of elements of `s` that equal `v`.
pub open spec fn count_equal(s: Seq<u8>, v: int) -> nat
    decreases s.len(),
{
    if s.len() == 0 {
        0
    } else {
        count_equal(s.drop_last(), v) + if (s.last() as int) == v {
            1nat
        } else {
            0nat
        }
    }
}

/// A permutation of 0..n, written as the sequence of its values.
pub open spec fn is_permutation(p: Seq<u8>) -> bool {
    &&& forall|i: int| 0 <= i < p.len() ==> (#[trigger] p[i] as int) < p.len()
    &&& forall|i: int, j: int| 0 <= i < j < p.len() ==> p[i] != p[j]
}

/// The number of pairs that stand in the wrong order: for each element, the
/// later elements that are smaller.
pub open spec fn spec_inversions(p: Seq<u8>) -> nat
    decreases p.len(),
{
    if p.len() == 0 {
        0
    } else {
        count_less(p.skip(1), p[0] as int) + spec_inversions(p.skip(1))
    }
}

/// The Lehmer code of `p` read as a number in the factorial base: the rank of
/// `p` among the permutations of its length in lexicographic order.
pub open spec fn spec_permutation_index(p: Seq<u8>) -> nat
    decreases p.len(),
{
    if p.len() == 0 {
        0
    } else {
        count_less(p.skip(1), p[0] as int) * spec_factorial((p.len() - 1) as nat)
            + spec_permutation_index(p.skip(1))
    }
}

pub proof fn lemma_count_less_push(s: Seq<u8>, x: u8, v: int)
    ensures
        count_less(s.push(x), v) == count_less(s, v) + if (x as int) < v {
            1nat
        } else {
            0nat
        },
{
    assert(s.push(x).drop_last() =~= s);
}

pub proof fn lemma_count_less_concat(a: Seq<u8>, b: Seq<u8>, v: int)
    ensures
        count_less(a + b, v) == count_less(a, v) + count_less(b, v),
    decreases b.len(),
{
    if b.len() == 0 {
        assert(a + b =~= a);
    } else {
        assert((a + b).drop_last() =~= a + b.drop_last());
        lemma_count_less_concat(a, b.drop_last(), v);
    }
}

pub proof fn lemma_count_less_bound(s: Seq<u8>, v: int)
    ensures
        count_less(s, v) <= s.len(),
    decreases s.len(),
{
    if s.len() > 0 {
        lemma_count_less_bound(s.drop_last(), v);
    }
}

pub proof fn lemma_count_less_all(s: Seq<u8>, v: int)
    requires
        forall|i: int| 0 <= i < s.len() ==> (#[trigger] s[i] as int) < v,
    ensures
        count_less(s, v) == s.len(),
    decreases s.len(),
{
    if s.len() > 0 {
        lemma_count_less_all(s.drop_last(), v);
    }
}

pub proof fn lemma_count_less_none(s: Seq<u8>, v: int)
    requires
        forall|i: int| 0 <= i < s.len() ==> (#[trigger] s[i] as int) >= v,
    ensures
        count_less(s, v) == 0,
    decreases s.len(),
{
    if s.len() > 0 {
        lemma_count_less_none(s.drop_last(), v);
    }
}

/// Splitting a sequence at position `i` splits the count in three.
pub proof fn lemma_count_less_split(s: Seq<u8>, i: int, v: int)
    requires
        0 <= i < s.len(),
    ensures
        count_less(s, v) == count_less(s.take(i), v) + count_less(s.skip(i + 1), v) + if (
        s[i] as int) < v {
            1nat
        } else {
            0nat
        },
{
    assert(s =~= s.take(i).push(s[i]) + s.skip(i + 1));
    lemma_count_less_concat(s.take(i).push(s[i]), s.skip(i + 1), v);
    lemma_count_less_push(s.take(i), s[i], v);
}

proof fn lemma_count_less_succ(s: Seq<u8>, v: int)
    ensures
        count_less(s, v + 1) == count_less(s, v) + count_equal(s, v),
    decreases s.len(),
{
    if s.len() > 0 {
        lemma_count_less_succ(s.drop_last(), v);
    }
}

proof fn lemma_count_equal_absent(s: Seq<u8>, v: int)
    requires
        forall|i: int| 0 <= i < s.len() ==> (#[trigger] s[i] as int) != v,
    ensures
        count_equal(s, v) == 0,
    decreases s.len(),
{
    if s.len() > 0 {
        lemma_count_equal_absent(s.drop_last(), v);
    }
}

proof fn lemma_count_equal_distinct(s: Seq<u8>, v: int)
    requires
        forall|i: int, j: int| 0 <= i < j < s.len() ==> s[i] != s[j],
    ensures
        count_equal(s, v) <= 1,
    decreases s.len(),
{
    if s.len() > 0 {
        if s.last() as int == v {
            lemma_count_equal_absent(s.drop_last(), v);
        } else {
            lemma_count_equal_distinct(s.drop_last(), v);
        }
    }
}

proof fn lemma_count_less_step(s: Seq<u8>, v: int, w: int)
    requires
        forall|i: int, j: int| 0 <= i < j < s.len() ==> s[i] != s[j],
        v <= w,
    ensures
        count_less(s, w) <= count_less(s, v) + (w - v),
    decreases w - v,
{
    if v < w {
        lemma_count_less_step(s, v, w - 1);
        lemma_count_less_succ(s, w - 1);
        lemma_count_equal_distinct(s, w - 1);
    }
}

/// In a permutation of 0..n exactly `v` elements are below `v`.
pub proof fn lemma_permutation_count_less(p: Seq<u8>, v: int)
    requires
        is_permutation(p),
        0 <= v <= p.len(),
    ensures
        count_less(p, v) == v,
{
    lemma_count_less_step(p, 0, v);
    lemma_count_less_none(p, 0);
    lemma_count_less_step(p, v, p.len() as int);
    lemma_count_less_all(p, p.len() as int);
}

/// The rank of a sequence of length n is below n!.
pub proof fn lemma_permutation_index_bound(p: Seq<u8>)
    ensures
        spec_permutation_index(p) < spec_factorial(p.len()),
    decreases p.len(),
{
    if p.len() > 0 {
        let f = spec_factorial((p.len() - 1) as nat);
        let d = count_less(p.skip(1), p[0] as int);
        lemma_permutation_index_bound(p.skip(1));
        lemma_count_less_bound(p.skip(1), p[0] as int);
        assert(d * f + f <= p.len() * f) by (nonlinear_arith)
            requires
                d + 1 <= p.len(),
                f >= 0,
        ;
    }
}

/// The rank of a permutation of 0..n, n <= 20, among the permutations of 0..n
/// in lexicographic order.
#[verifier::rlimit(50)]
pub fn permutation_index(permutation: &[u8]) -> (r: i64)
    requires
        is_permutation(permutation@),
        permutation.len() <= 20,
    ensures
        r == spec_permutation_index(permutation@),
{
    let size = permutation.len();
    let mut index: i64 = 0;
    let mut bitboard: u64 = 0;
    let ghost p = permutation@;
    proof {
        lemma_zero_has_no_bits();
        lemma_permutation_index_bound(p);
        lemma_factorial_table(size as nat);
        assert(p.skip(0) =~= p);
        assert(p.take(0) =~= Seq::<u8>::empty());
    }
    for i in 0..size
        invariant
            size == p.len(),
            p == permutation@,
            size <= 20,
            is_permutation(p),
            0 <= index,
            index + spec_permutation_index(p.skip(i as int)) == spec_permutation_index(p),
            spec_permutation_index(p) < 2432902008176640000,
            forall|j: int|
                0 <= j < 64 ==> (#[trigger] bit_is_set(bitboard, j) <==> exists|l: int|
                    0 <= l < i && p[l] == j),
            forall|v: int|
                0 <= v <= 64 ==> #[trigger] count_set_below(bitboard, v) == count_less(
                    p.take(i as int),
                    v,
                ),
    {
        let e = permutation[i];
        proof {
            lemma_low_mask(
                bitboard,
                e as int,
                bitboard & (((1u64 << (e as u64)) - 1) as u64),
            );
        }
        let mask: u64 = 1u64 << (e as u64);
        let low: u64 = bitboard & (mask - 1);
        let below = low.count_ones();
        proof {
            lemma_count_low_mask(bitboard, e as int, low, 64);
            lemma_count_less_bound(p.take(i as int), e as int);
            lemma_permutation_count_less(p, e as int);
            lemma_count_less_split(p, i as int, e as int);
        }
        let smaller: i64 = e as i64 - below as i64;
        let bigger = size - i - 1;
        let f = factorial(bigger as i64);
        proof {
            let tail = p.skip(i as int);
            assert(tail.skip(1) =~= p.skip(i + 1));
            assert(tail[0] == p[i as int]);
            assert(smaller == count_less(p.skip(i + 1), e as int));
            assert(spec_permutation_index(tail) == smaller * f + spec_permutation_index(
                p.skip(i + 1),
            ));
            assert(0 <= smaller * f) by (nonlinear_arith)
                requires
                    0 <= smaller,
                    0 <= f,
            ;
        }
        index += smaller * f;
        proof {
            assert(!bit_is_set(bitboard, e as int)) by {
                if bit_is_set(bitboard, e as int) {
                    let l = choose|l: int| 0 <= l < i && p[l] == e as int;
                    assert(p[l] != p[i as int]);
                }
            }
            let next = bitboard | mask;
            lemma_insert_bit(bitboard, e as int, next);
            assert(p.take(i + 1) =~= p.take(i as int).push(e));
            assert forall|v: int| 0 <= v <= 64 implies #[trigger] count_set_below(next, v)
                == count_less(p.take(i + 1), v) by {
                lemma_count_insert_bit(bitboard, e as int, next, v);
                lemma_count_less_push(p.take(i as int), e, v);
            }
            assert forall|j: int| 0 <= j < 64 implies (#[trigger] bit_is_set(next, j)
                <==> exists|l: int| 0 <= l < i + 1 && p[l] == j) by {
                if bit_is_set(next, j) {
                    if j == e {
                        assert(p[i as int] == j);
                    } else {
                        let l = choose|l: int| 0 <= l < i && p[l] == j;
                        assert(0 <= l < i + 1 && p[l] == j);
                    }
                }
            }
        }
        bitboard |= mask;
    }
    proof {
        assert(p.skip(size as int) =~= Seq::<u8>::empty());
    }
    index
}

/// A sequence of n elements has at most n * (n - 1) / 2 inversions.
pub proof fn lemma_inversions_bound(p: Seq<u8>)
    ensures
        2 * spec_inversions(p) <= p.len() * (p.len() - 1),
    decreases p.len(),
{
    if p.len() > 0 {
        let n = p.len() as int;
        lemma_inversions_bound(p.skip(1));
        lemma_count_less_bound(p.skip(1), p[0] as int);
        assert(2 * (n - 1) + (n - 1) * (n - 2) == n * (n - 1)) by (nonlinear_arith);
    }
}

/// Whether the number of inversions of `permutation` is even.
pub fn is_even_permutation_array(permutation: &[u8]) -> (r: bool)
    requires
        permutation.len() <= 92682,
    ensures
        r == (spec_inversions(permutation@) % 2 == 0),
{
    let size = permutation.len();
    let mut count: u32 = 0;
    let ghost p = permutation@;
    proof {
        assert(p.skip(0) =~= p);
        lemma_inversions_bound(p);
        assert(size * (size - 1) <= 92682 * 92681) by (nonlinear_arith)
            requires
                0 <= size <= 92682,
        ;
    }
    for i in 0..size
        invariant
            size == p.len(),
            p == permutation@,
            spec_inversions(p) <= u32::MAX,
            count + spec_inversions(p.skip(i as int)) == spec_inversions(p),
    {
        let ghost before = count;
        let ghost tail = p.skip(i as int);
        proof {
            assert(tail.skip(1) =~= p.skip(i + 1));
            assert(p.subrange(i + 1, i + 1) =~= Seq::<u8>::empty());
        }
        for j in (i + 1)..size
            invariant
                size == p.len(),
                p == permutation@,
                i < size,
                spec_inversions(p) <= u32::MAX,
                before + count_less(p.skip(i + 1), p[i as int] as int) <= spec_inversions(p),
                count == before + count_less(p.subrange(i + 1, j as int), p[i as int] as int),
        {
            proof {
                assert(p.subrange(i + 1, j + 1) =~= p.subrange(i + 1, j as int).push(p[j as int]));
                lemma_count_less_push(p.subrange(i + 1, j as int), p[j as int], p[i as int] as int);
                assert(p.skip(i + 1) =~= p.subrange(i + 1, j + 1) + p.skip(j + 1));
                lemma_count_less_concat(
                    p.subrange(i + 1, j + 1),
                    p.skip(j + 1),
                    p[i as int] as int,
                );
            }
            if permutation[i] > permutation[j] {
                count += 1;
            }
        }
        proof {
            assert(p.subrange(i + 1, size as int) =~= p.skip(i + 1));
        }
    }
    proof {
        assert(p.skip(size as int) =~= Seq::<u8>::empty());
    }
    count % 2 == 0
}

/// The numbers 0, 1, .., n - 1 in ascending order.
pub open spec fn identity_permutation(n: nat) -> Seq<u8> {
    Seq::new(n, |i: int| i as u8)
}

/// The position among `len` elements that an arrangement of rank `index` takes
/// its first element from: `index / (len - 1)!` (the first position where the
/// rank is not one of `len` elements).
pub open spec fn arrangement_position(index: nat, len: nat) -> int {
    let q = (index / spec_factorial((len - 1) as nat)) as int;
    if 0 <= q < len {
        q
    } else {
        0
    }
}

/// The arrangement of rank `index` of the elements `avail`, which are given in
/// ascending order: its first element is the one at `arrangement_position`, and
/// the rest is the arrangement of rank `index % (n - 1)!` of what is left.
pub open spec fn spec_nth_arrangement(index: nat, avail: Seq<u8>) -> Seq<u8>
    decreases avail.len(),
{
    if avail.len() == 0 {
        Seq::empty()
    } else {
        let f = spec_factorial((avail.len() - 1) as nat);
        let pos = arrangement_position(index, avail.len());
        seq![avail[pos]] + spec_nth_arrangement(index % f, avail.remove(pos))
    }
}

/// The permutation of 0..n of rank `index` in lexicographic order.
pub open spec fn spec_nth_permutation(index: nat, n: nat) -> Seq<u8> {
    spec_nth_arrangement(index, identity_permutation(n))
}

/// Whether `j` is one of the elements of `s`.
pub open spec fn has_member(s: Seq<u8>, j: int) -> bool {
    exists|l: int| 0 <= l < s.len() && s[l] as int == j
}

/// Strictly ascending.
pub open spec fn is_ascending(s: Seq<u8>) -> bool {
    forall|i: int, j: int| 0 <= i < j < s.len() ==> s[i] < s[j]
}

pub proof fn lemma_factorial_positive(n: nat)
    ensures
        spec_factorial(n) >= 1,
    decreases n,
{
    if n > 0 {
        lemma_factorial_positive((n - 1) as nat);
        assert(n * spec_factorial((n - 1) as nat) >= 1) by (nonlinear_arith)
            requires
                n >= 1,
                spec_factorial((n - 1) as nat) >= 1,
        ;
    }
}

/// The position that `spec_nth_arrangement` takes its first element from lies
/// within `avail`, and the rank that is left is a rank of what is left.
pub proof fn lemma_arrangement_step(index: nat, len: nat)
    requires
        len > 0,
        index < spec_factorial(len),
    ensures
        spec_factorial((len - 1) as nat) >= 1,
        index / spec_factorial((len - 1) as nat) < len,
        index % spec_factorial((len - 1) as nat) < spec_factorial((len - 1) as nat),
        index == (index / spec_factorial((len - 1) as nat)) * spec_factorial((len - 1) as nat)
            + index % spec_factorial((len - 1) as nat),
{
    let f = spec_factorial((len - 1) as nat);
    lemma_factorial_positive((len - 1) as nat);
    assert(index / f < len && index % f < f && index == (index / f) * f + index % f)
        by (nonlinear_arith)
        requires
            f >= 1,
            index < len * f,
    ;
}

/// The elements of an arrangement are the elements it was made from, each once,
/// and its rank is the rank it was made for.
#[verifier::rlimit(50)]
pub proof fn lemma_arrangement(index: nat, avail: Seq<u8>)
    requires
        is_ascending(avail),
        index < spec_factorial(avail.len()),
    ensures
        spec_nth_arrangement(index, avail).len() == avail.len(),
        forall|i: int|
            0 <= i < avail.len() ==> avail.contains(#[trigger] spec_nth_arrangement(index, avail)[i]),
        forall|i: int, j: int|
            0 <= i < j < avail.len() ==> spec_nth_arrangement(index, avail)[i]
                != spec_nth_arrangement(index, avail)[j],
        forall|v: int| count_less(spec_nth_arrangement(index, avail), v) == count_less(avail, v),
        spec_permutation_index(spec_nth_arrangement(index, avail)) == index,
    decreases avail.len(),
{
    let r = spec_nth_arrangement(index, avail);
    if avail.len() > 0 {
        let f = spec_factorial((avail.len() - 1) as nat);
        lemma_arrangement_step(index, avail.len());
        let pos = (index / f) as int;
        let rest = avail.remove(pos);
        let tail = spec_nth_arrangement(index % f, rest);
        assert(is_ascending(rest));
        lemma_arrangement(index % f, rest);
        assert(r =~= seq![avail[pos]] + tail);
        assert(r.skip(1) =~= tail);
        assert(r[0] == avail[pos]);
        assert forall|i: int| 0 <= i < avail.len() implies avail.contains(#[trigger] r[i]) by {
            if i > 0 {
                assert(r[i] == tail[i - 1]);
                assert(rest.contains(tail[i - 1]));
                let w = choose|w: int| 0 <= w < rest.len() && rest[w] == tail[i - 1];
                if w < pos {
                    assert(avail[w] == r[i]);
                } else {
                    assert(avail[w + 1] == r[i]);
                }
            }
        }
        assert forall|i: int, j: int| 0 <= i < j < avail.len() implies r[i] != r[j] by {
            if i == 0 {
                assert(rest.contains(tail[j - 1]));
                let w = choose|w: int| 0 <= w < rest.len() && rest[w] == tail[j - 1];
                if w < pos {
                    assert(avail[w] < avail[pos]);
                } else {
                    assert(avail[pos] < avail[w + 1]);
                }
            } else {
                assert(tail[i - 1] != tail[j - 1]);
            }
        }
        assert forall|v: int| count_less(r, v) == count_less(avail, v) by {
            lemma_count_less_concat(seq![avail[pos]], tail, v);
            lemma_count_less_push(Seq::<u8>::empty(), avail[pos], v);
            assert(Seq::<u8>::empty().push(avail[pos]) =~= seq![avail[pos]]);
            lemma_count_less_split(avail, pos, v);
            assert(rest =~= avail.take(pos) + avail.skip(pos + 1));
            lemma_count_less_concat(avail.take(pos), avail.skip(pos + 1), v);
        }
        // the first digit of the rank is the position that was taken
        assert(count_less(tail, avail[pos] as int) == pos) by {
            assert(rest =~= avail.take(pos) + avail.skip(pos + 1));
            lemma_count_less_concat(avail.take(pos), avail.skip(pos + 1), avail[pos] as int);
            lemma_count_less_all(avail.take(pos), avail[pos] as int);
            lemma_count_less_none(avail.skip(pos + 1), avail[pos] as int);
        }
    }
}

/// What `spec_nth_permutation` gives is a permutation, and `index` is its rank.
pub proof fn lemma_nth_permutation(index: nat, n: nat)
    requires
        n <= 256,
        index < spec_factorial(n),
    ensures
        spec_nth_permutation(index, n).len() == n,
        is_permutation(spec_nth_permutation(index, n)),
        spec_permutation_index(spec_nth_permutation(index, n)) == index,
{
    let id = identity_permutation(n);
    let r = spec_nth_permutation(index, n);
    lemma_arrangement(index, id);
    assert forall|i: int| 0 <= i < r.len() implies (#[trigger] r[i] as int) < r.len() by {
        assert(id.contains(r[i]));
    }
}

/// The permutation of 0..size of rank `index` in lexicographic order.
#[verifier::rlimit(50)]
pub fn nth_permutation(index: i64, size: usize) -> (r: Vec<u8>)
    requires
        size <= 21,
        0 <= index < spec_factorial(size as nat),
    ensures
        r@ == spec_nth_permutation(index as nat, size as nat),
{
    let mut unused: u64 = 0xFFFFFFFFFFFFFFFFu64;
    let mut index = index;
    let mut permutation: Vec<u8> = Vec::with_capacity(size);
    let ghost index0 = index as nat;
    let ghost mut avail = identity_permutation(size as nat);
    proof {
        assert forall|j: int| 0 <= j < 64 implies #[trigger] bit_is_set(unused, j) by {
            lemma_all_ones(j as u64);
        }
        assert forall|j: int| 0 <= j < size implies #[trigger] has_member(avail, j) by {
            assert(avail[j] as int == j);
        }
    }
    for k in 0..size
        invariant
            size <= 21,
            permutation.len() == k,
            avail.len() == size - k,
            is_ascending(avail),
            0 <= index < spec_factorial(avail.len()),
            forall|l: int| 0 <= l < avail.len() ==> (#[trigger] avail[l] as int) < size,
            forall|j: int|
                0 <= j < 64 ==> (#[trigger] bit_is_set(unused, j) <==> (j >= size || has_member(
                    avail,
                    j,
                ))),
            permutation@ + spec_nth_arrangement(index as nat, avail) == spec_nth_permutation(
                index0,
                size as nat,
            ),
    {
        let i = size - 1 - k;
        let f = factorial(i as i64);
        proof {
            lemma_arrangement_step(index as nat, avail.len());
        }
        let pos = index / f;
        index = index % f;

        // Find the pos-th set bit in unused
        let mut mask = unused;
        let mut m: i64 = 0;
        while m < pos
            invariant
                0 <= m <= pos < avail.len(),
                size <= 21,
                is_ascending(avail),
                forall|l: int| 0 <= l < avail.len() ==> (#[trigger] avail[l] as int) < size,
                forall|j: int|
                    0 <= j < 64 ==> (#[trigger] bit_is_set(mask, j) <==> (j >= size || exists|
                        l: int,
                    |
                        m <= l < avail.len() && avail[l] == j)),
            decreases pos - m,
        {
            proof {
                lemma_lowest_member(mask, avail, m as int, size as int);
                lemma_clear_lowest_bit(mask, mask & ((mask - 1) as u64));
            }
            let next = mask & (mask - 1);  // Clear lowest set bit
            proof {
                assert forall|j: int| 0 <= j < 64 implies (#[trigger] bit_is_set(next, j) <==> (j
                    >= size || exists|l: int| m + 1 <= l < avail.len() && avail[l] == j)) by {
                    if bit_is_set(next, j) && j < size {
                        let l = choose|l: int| m <= l < avail.len() && avail[l] == j;
                        assert(m + 1 <= l < avail.len() && avail[l] == j);
                    }
                    if j < size && exists|l: int| m + 1 <= l < avail.len() && avail[l] == j {
                        let l = choose|l: int| m + 1 <= l < avail.len() && avail[l] == j;
                        assert(m <= l < avail.len() && avail[l] == j);
                        assert(avail[m as int] < avail[l]);
                    }
                }
            }
            mask = next;
            m += 1;
        }
        proof {
            lemma_lowest_member(mask, avail, pos as int, size as int);
            lemma_isolate_lowest_bit(mask, mask & ((!mask + 1) as u64));
        }
        let selected_bit = mask & (!mask + 1);  // Get lowest set bit
        let e = selected_bit.trailing_zeros() as u8;
        proof {
            let rest = avail.remove(pos as int);
            let next = unused ^ selected_bit;
            lemma_xor_bits(unused, selected_bit, next);
            assert(e == avail[pos as int]);
            assert(is_ascending(rest));
            assert forall|j: int| 0 <= j < 64 implies (#[trigger] bit_is_set(next, j) <==> (j
                >= size || has_member(rest, j))) by {
                if j < size && has_member(avail, j) && j != e {
                    let l = choose|l: int| 0 <= l < avail.len() && avail[l] as int == j;
                    if l < pos {
                        assert(rest[l] as int == j);
                    } else {
                        assert(rest[l - 1] as int == j);
                    }
                }
                if j < size && has_member(rest, j) {
                    let l = choose|l: int| 0 <= l < rest.len() && rest[l] as int == j;
                    if l < pos {
                        assert(avail[l] as int == j);
                        assert(avail[l] < avail[pos as int]);
                    } else {
                        assert(avail[l + 1] as int == j);
                        assert(avail[pos as int] < avail[l + 1]);
                    }
                }
            }
            assert(permutation@.push(e) + spec_nth_arrangement(index as nat, rest)
                =~= permutation@ + (seq![e] + spec_nth_arrangement(index as nat, rest)));
            avail = rest;
        }
        permutation.push(e);
        unused ^= selected_bit;
    }
    proof {
        assert(permutation@ + Seq::<u8>::empty() =~= permutation@);
    }
    permutation
}

proof fn lemma_all_ones(j: u64)
    by (bit_vector)
    requires
        j < 64,
    ensures
        (0xFFFFFFFFFFFFFFFFu64 >> j) & 1 == 1,
{
}

/// Where the set bits of `mask` below `size` are the elements of `avail` from
/// position `m` on, the lowest set bit of `mask` is `avail[m]`.
proof fn lemma_lowest_member(mask: u64, avail: Seq<u8>, m: int, size: int)
    requires
        0 <= m < avail.len(),
        size <= 64,
        is_ascending(avail),
        forall|l: int| 0 <= l < avail.len() ==> (#[trigger] avail[l] as int) < size,
        forall|j: int|
            0 <= j < 64 ==> (#[trigger] bit_is_set(mask, j) <==> (j >= size || exists|l: int|
                m <= l < avail.len() && avail[l] == j)),
    ensures
        mask != 0,
        mask.trailing_zeros() == avail[m],
{
    let a = avail[m] as int;
    assert(bit_is_set(mask, a));
    if mask == 0 {
        lemma_zero_has_no_bits();
    }
    lemma_lowest_bit(mask);
    let t = mask.trailing_zeros() as int;
    assert(t <= a);
    assert(bit_is_set(mask, t));
    let l = choose|l: int| m <= l < avail.len() && avail[l] == t;
    if l > m {
        assert(avail[m] < avail[l]);
    }
}

/// The sum of the digits of `index` in the mixed-radix system whose lowest
/// digit has base `base`, the next `base + 1`, and so on. With base 2 these are
/// the digits of `index` in the factorial number system.
pub open spec fn spec_digit_sum(index: int, base: int) -> int
    decreases index,
    via spec_digit_sum_decreases
{
    if index <= 0 || base < 2 {
        0
    } else {
        index % base + spec_digit_sum(index / base, base + 1)
    }
}

#[via_fn]
proof fn spec_digit_sum_decreases(index: int, base: int) {
    if index > 0 && base >= 2 {
        lemma_div_decreases(index, base);
    }
}

/// Whether the permutation of rank `lexicographical_index` is even, from the
/// sum of the digits of the rank in the factorial number system.
pub fn is_even_permutation(lexicographical_index: i64) -> (r: bool)
    ensures
        r == (spec_digit_sum(lexicographical_index as int, 2) % 2 == 0),
{
    let mut index = lexicographical_index;
    let mut sum: i64 = 0;
    let mut i: i64 = 2;
    proof {
        lemma2_to64();
        assert(index * pow2(0) == index) by (nonlinear_arith)
            requires
                pow2(0) == 1,
        ;
    }
    while index > 0
        invariant
            2 <= i <= 66,
            0 <= sum,
            index > 0 ==> sum + index <= lexicographical_index,
            index > 0 ==> index * pow2((i - 2) as nat) <= lexicographical_index,
            sum + spec_digit_sum(index as int, i as int) == spec_digit_sum(
                lexicographical_index as int,
                2,
            ),
        decreases index,
    {
        proof {
            let k = (i - 2) as nat;
            lemma2_to64();
            if k >= 64 {
                if k > 64 {
                    lemma_pow2_strictly_increases(64, k);
                }
                assert(index * pow2(k) >= pow2(k)) by (nonlinear_arith)
                    requires
                        index >= 1,
                        pow2(k) >= 0,
                ;
            }
            lemma_fundamental_div_mod(index as int, i as int);
            lemma_div_decreases(index as int, i as int);
            lemma_pow2_unfold(k + 1);
            let q = index as int / i as int;
            assert(q * pow2(k + 1) <= index * pow2(k)) by (nonlinear_arith)
                requires
                    index == i * q + index % i,
                    index % i >= 0,
                    i >= 2,
                    q >= 0,
                    pow2(k + 1) == 2 * pow2(k),
                    pow2(k) >= 0,
            ;
            assert(q + index % i <= index) by (nonlinear_arith)
                requires
                    index == i * q + index % i,
                    i >= 2,
                    q >= 0,
            ;
        }
        sum = sum + index % i;
        index = index / i;
        i += 1;
    }
    sum % 2 == 0
}

/// Whether the permutation of rank `lexicographical_index` is odd.
pub fn is_odd_permutation(lexicographical_index: i64) -> (r: bool)
    ensures
        r == (spec_digit_sum(lexicographical_index as int, 2) % 2 != 0),
{
    !is_even_permutation(lexicographical_index)
}

/// The product b * (b + 1) * .. * (b + k - 1).
pub open spec fn rising_product(b: int, k: nat) -> int
    decreases k,
{
    if k == 0 {
        1
    } else {
        b * rising_product(b + 1, (k - 1) as nat)
    }
}

proof fn lemma_rising_product_positive(b: int, k: nat)
    requires
        b >= 1,
    ensures
        rising_product(b, k) >= 1,
    decreases k,
{
    if k > 0 {
        lemma_rising_product_positive(b + 1, (k - 1) as nat);
        assert(b * rising_product(b + 1, (k - 1) as nat) >= 1) by (nonlinear_arith)
            requires
                b >= 1,
                rising_product(b + 1, (k - 1) as nat) >= 1,
        ;
    }
}

proof fn lemma_rising_product_last(b: int, k: nat)
    ensures
        rising_product(b, k + 1) == rising_product(b, k) * (b + k),
    decreases k,
{
    if k == 0 {
        assert(rising_product(b + 1, 0) == 1);
        assert(rising_product(b, 1) == b * rising_product(b + 1, 0));
    } else {
        lemma_rising_product_last(b + 1, (k - 1) as nat);
        let x = rising_product(b + 1, (k - 1) as nat);
        assert(rising_product(b + 1, k) == x * (b + k));
        assert(rising_product(b, k + 1) == b * rising_product(b + 1, k));
        assert(rising_product(b, k) == b * x);
        assert(b * (x * (b + k)) == (b * x) * (b + k)) by (nonlinear_arith);
    }
}

/// m! is 2 * 3 * .. * m.
proof fn lemma_factorial_as_rising_product(m: nat)
    requires
        m >= 1,
    ensures
        spec_factorial(m) == rising_product(2, (m - 1) as nat),
    decreases m,
{
    if m == 1 {
        assert(spec_factorial(1) == 1 * spec_factorial(0));
    } else {
        lemma_factorial_as_rising_product((m - 1) as nat);
        lemma_rising_product_last(2, (m - 2) as nat);
        let x = rising_product(2, (m - 2) as nat);
        assert(m * x == x * (2 + (m - 2))) by (nonlinear_arith);
    }
}

proof fn lemma_digit_sum_unfold(x: int, b: int)
    requires
        x >= 0,
        b >= 2,
    ensures
        spec_digit_sum(x, b) == x % b + spec_digit_sum(x / b, b + 1),
{
    if x == 0 {
        lemma_small_mod(0, b as nat);
        lemma_basic_div(0, b);
    }
}

/// A digit `d` written above the `k` lowest places adds `d`'s own digits to
/// the digit sum of what stands in those places.
proof fn lemma_digit_sum_shift(d: int, r: int, b: int, k: nat)
    requires
        b >= 2,
        d >= 0,
        0 <= r < rising_product(b, k),
    ensures
        d * rising_product(b, k) + r >= 0,
        spec_digit_sum(d * rising_product(b, k) + r, b) == spec_digit_sum(r, b) + spec_digit_sum(
            d,
            b + k,
        ),
    decreases k,
{
    if k == 0 {
        assert(d * 1 + 0 == d);
    } else {
        let upper = rising_product(b + 1, (k - 1) as nat);
        lemma_rising_product_positive(b + 1, (k - 1) as nat);
        let x = d * (b * upper) + r;
        let rq = r / b;
        let rm = r % b;
        lemma_fundamental_div_mod(r, b);
        assert(0 <= rm < b);
        assert(0 <= rq < upper) by (nonlinear_arith)
            requires
                r == b * rq + rm,
                0 <= rm < b,
                0 <= r < b * upper,
                b >= 2,
        ;
        assert(x == (d * upper + rq) * b + rm) by (nonlinear_arith)
            requires
                x == d * (b * upper) + r,
                r == b * rq + rm,
        ;
        lemma_fundamental_div_mod_converse(x, b, d * upper + rq, rm);
        assert(d * upper >= 0) by (nonlinear_arith)
            requires
                d >= 0,
                upper >= 1,
        ;
        lemma_digit_sum_shift(d, rq, b + 1, (k - 1) as nat);
        lemma_digit_sum_unfold(x, b);
        lemma_digit_sum_unfold(r, b);
    }
}

/// The digits of the rank of a sequence in the factorial number system add up
/// to the number of its inversions.
pub proof fn lemma_digit_sum_of_rank(p: Seq<u8>)
    ensures
        spec_digit_sum(spec_permutation_index(p) as int, 2) == spec_inversions(p),
    decreases p.len(),
{
    if p.len() > 0 {
        let n = p.len();
        let tail = p.skip(1);
        let d = count_less(tail, p[0] as int) as int;
        let rest = spec_permutation_index(tail) as int;
        lemma_digit_sum_of_rank(tail);
        lemma_permutation_index_bound(tail);
        lemma_count_less_bound(tail, p[0] as int);
        if n == 1 {
            assert(spec_factorial(0) == 1);
            assert(d == 0);
            assert(rest == 0);
            assert(spec_permutation_index(p) == 0) by (nonlinear_arith)
                requires
                    spec_permutation_index(p) == d * spec_factorial(0) + rest,
                    d == 0,
                    rest == 0,
            ;
        } else {
            let f = rising_product(2, (n - 2) as nat);
            lemma_factorial_as_rising_product((n - 1) as nat);
            assert(spec_permutation_index(p) == d * f + rest);
            lemma_digit_sum_shift(d, rest, 2, (n - 2) as nat);
            assert(spec_digit_sum(d * f + rest, 2) == spec_digit_sum(rest, 2) + spec_digit_sum(
                d,
                n as int,
            ));
            lemma_digit_sum_unfold(d, n as int);
            lemma_small_mod(d as nat, n);
            lemma_basic_div(d, n as int);
            assert(spec_digit_sum(d, n as int) == d);
        }
    }
}

/// The parity that `is_even_permutation` reads off a rank is the parity of the
/// number of inversions of the permutation with that rank.
pub proof fn lemma_parity_of_rank(index: nat, n: nat)
    requires
        n <= 256,
        index < spec_factorial(n),
    ensures
        (spec_digit_sum(index as int, 2) % 2 == 0) == (spec_inversions(
            spec_nth_permutation(index, n),
        ) % 2 == 0),
{
    lemma_nth_permutation(index, n);
    lemma_digit_sum_of_rank(spec_nth_permutation(index, n));
}

/// Whether every call of `binomial` with at most `n` elements and at most `k`
/// chosen stays within an `i64`. It holds of every `n` below 13.
pub open spec fn binomials_fit(n: int, k: int) -> bool {
    forall|m: int, r: int| 0 <= m <= n && 0 <= r <= k ==> #[trigger] binomial_fits(m, r)
}

/// No binomial coefficient of n is above 2^n.
pub proof fn lemma_binomial_at_most_pow2(n: nat, k: nat)
    ensures
        spec_binomial(n, k) <= pow2(n),
    decreases n,
{
    vstd::arithmetic::power2::lemma_pow2_pos(n);
    if n == 0 {
        lemma2_to64();
    } else if k > 0 {
        lemma_binomial_at_most_pow2((n - 1) as nat, (k - 1) as nat);
        lemma_binomial_at_most_pow2((n - 1) as nat, k);
        lemma_pow2_unfold(n);
    }
}

/// Up to 57 elements every running product of `binomial` stays within an
/// `i64`.
pub proof fn lemma_binomials_fit(n: int, k: int)
    requires
        n <= 57,
    ensures
        binomials_fit(n, k),
{
    assert forall|m: int, r: int| 0 <= m <= n && 0 <= r <= k implies #[trigger] binomial_fits(
        m,
        r,
    ) by {
        assert forall|j: int| 0 <= j < r && j < m - r implies #[trigger] spec_binomial(
            m as nat,
            j as nat,
        ) * (m - j) <= i64::MAX by {
            let c = spec_binomial(m as nat, j as nat);
            lemma_binomial_at_most_pow2(m as nat, j as nat);
            lemma2_to64();
            vstd::arithmetic::power2::lemma_pow2_adds(32, 25);
            if m < 57 {
                lemma_pow2_strictly_increases(m as nat, 57);
            }
            assert(c * (m - j) <= 144115188075855872 * 57) by (nonlinear_arith)
                requires
                    0 <= c <= 144115188075855872,
                    0 <= m - j <= 57,
            ;
        }
    }
}

/// An ascending choice of elements of 0..n.
pub open spec fn is_combination(n: int, c: Seq<u8>) -> bool {
    &&& is_ascending(c)
    &&& forall|i: int| 0 <= i < c.len() ==> (#[trigger] c[i] as int) < n
}

/// The number of ways to go on after a first element j with `from <= j < to`,
/// where `r` more elements are to be chosen above it from 0..n: the sum of
/// C(n - 1 - j, r) over those j.
pub open spec fn spec_skipped(n: int, r: int, from: int, to: int) -> nat
    decreases to - from,
{
    if from >= to {
        0
    } else {
        spec_binomial((n - 1 - from) as nat, r as nat) + spec_skipped(n, r, from + 1, to)
    }
}

/// The rank of `c` among the ascending choices of `c.len()` elements of
/// `lo..n` in lexicographic order: the choices with a smaller first element,
/// and then those with the same first element and a smaller rest.
pub open spec fn spec_combination_rank(n: int, c: Seq<u8>, lo: int) -> nat
    decreases c.len(),
{
    if c.len() == 0 {
        0
    } else {
        spec_skipped(n, c.len() - 1, lo, c[0] as int) + spec_combination_rank(
            n,
            c.skip(1),
            c[0] + 1,
        )
    }
}

/// The rank of `c` among the ascending choices of `c.len()` elements of 0..n.
pub open spec fn spec_combination_index(n: int, c: Seq<u8>) -> nat {
    spec_combination_rank(n, c, 0)
}

pub proof fn lemma_skipped_last(n: int, r: int, from: int, to: int)
    requires
        from <= to,
    ensures
        spec_skipped(n, r, from, to + 1) == spec_skipped(n, r, from, to) + spec_binomial(
            (n - 1 - to) as nat,
            r as nat,
        ),
    decreases to - from,
{
    if from < to {
        lemma_skipped_last(n, r, from + 1, to);
    } else {
        assert(spec_skipped(n, r, from + 1, to + 1) == 0);
    }
}

/// In an ascending sequence no element is below its position.
pub proof fn lemma_ascending_floor(c: Seq<u8>, i: int)
    requires
        is_ascending(c),
        0 <= i < c.len(),
    ensures
        c[i] >= i,
    decreases i,
{
    if i > 0 {
        lemma_ascending_floor(c, i - 1);
        assert(c[i - 1] < c[i]);
    }
}

/// Pascal's rule.
pub proof fn lemma_binomial_pascal(n: nat, k: nat)
    requires
        n >= 1,
        k >= 1,
    ensures
        spec_binomial(n, k) == spec_binomial((n - 1) as nat, (k - 1) as nat) + spec_binomial(
            (n - 1) as nat,
            k,
        ),
{
}

/// The rank of the ascending choice `combination` of elements of 0..n among
/// all such choices of its length, in lexicographic order.
#[verifier::rlimit(50)]
pub fn combination_index(n: i64, combination: &[u8]) -> (r: i64)
    requires
        0 <= n,
        is_combination(n as int, combination@),
        binomials_fit(n as int, combination.len() as int),
        spec_binomial(n as nat, combination.len() as nat) <= i64::MAX,
    ensures
        r == spec_combination_index(n as int, combination@),
        r < spec_binomial(n as nat, combination.len() as nat),
{
    let mut index: i64 = 0;
    let mut j: i64 = 0;
    let ghost c = combination@;
    proof {
        if c.len() > 256 {
            lemma_ascending_floor(c, 256);
        }
        assert(c.skip(0) =~= c);
    }
    let k = combination.len() as i64;
    let mut i: i64 = 0;
    while i < k
        invariant
            0 <= i <= k,
            k == c.len(),
            c == combination@,
            0 <= n,
            is_combination(n as int, c),
            binomials_fit(n as int, k as int),
            spec_binomial(n as nat, k as nat) <= i64::MAX,
            j == (if i == 0 {
                0int
            } else {
                c[i - 1] + 1
            }),
            0 <= j <= n,
            0 <= index,
            index + spec_combination_rank(n as int, c.skip(i as int), j as int)
                == spec_combination_index(n as int, c),
            index + spec_binomial((n - j) as nat, (k - i) as nat) <= spec_binomial(
                n as nat,
                k as nat,
            ),
        decreases k - i,
    {
        let ghost lo = j as int;
        let ghost start = index as int;
        let target = combination[i as usize] as i64;
        proof {
            if i > 0 {
                assert(c[i - 1] < c[i as int]);
            }
            assert(c.skip(i as int)[0] == c[i as int]);
            assert(c.skip(i as int).skip(1) =~= c.skip(i + 1));
        }
        j += 1;
        while j < target + 1
            invariant
                0 <= i < k,
                k == c.len(),
                0 <= n,
                target == c[i as int],
                target < n,
                lo <= j - 1 <= target,
                0 <= lo,
                binomials_fit(n as int, k as int),
                spec_binomial(n as nat, k as nat) <= i64::MAX,
                0 <= index,
                index == start + spec_skipped(n as int, k - i - 1, lo, j - 1),
                index + spec_binomial((n - (j - 1)) as nat, (k - i) as nat) <= spec_binomial(
                    n as nat,
                    k as nat,
                ),
            decreases target + 1 - j,
        {
            proof {
                lemma_skipped_last(n as int, k - i - 1, lo, j - 1);
                lemma_binomial_pascal((n - (j - 1)) as nat, (k - i) as nat);
                assert(binomial_fits(n - j, k - i - 1));
            }
            index += binomial(n - j, k - i - 1);
            j += 1;
        }
        proof {
            lemma_binomial_pascal((n - (j - 1)) as nat, (k - i) as nat);
        }
        i += 1;
    }
    proof {
        assert(c.skip(k as int) =~= Seq::<u8>::empty());
        assert(spec_binomial((n - j) as nat, 0) == 1);
    }
    index
}

/// The ascending choice of `k` elements of `i..n` of rank `index`: it starts
/// with `i` where the rank is below the number of choices that do, and
/// otherwise is the choice from `i + 1..n` whose rank is less by that number.
pub open spec fn spec_nth_combination_from(n: int, k: nat, index: nat, i: int) -> Seq<u8>
    decreases n - i,
{
    if k == 0 || i >= n {
        Seq::empty()
    } else {
        let count = spec_binomial((n - 1 - i) as nat, (k - 1) as nat);
        if count > index {
            seq![i as u8] + spec_nth_combination_from(n, (k - 1) as nat, index, i + 1)
        } else {
            spec_nth_combination_from(n, k, (index - count) as nat, i + 1)
        }
    }
}

/// The ascending choice of `k` elements of 0..n of rank `index`; empty where
/// `k` is not between 1 and `n`.
pub open spec fn spec_nth_combination(n: int, k: int, index: nat) -> Seq<u8> {
    if k < 1 || k > n {
        Seq::empty()
    } else {
        spec_nth_combination_from(n, k as nat, index, 0)
    }
}

/// What `spec_nth_combination_from` gives is an ascending choice of `k`
/// elements of `i..n`, and `index` is its rank among them.
pub proof fn lemma_nth_combination_from(n: int, k: nat, index: nat, i: int)
    requires
        0 <= i <= n <= 256,
        index < spec_binomial((n - i) as nat, k),
    ensures
        spec_nth_combination_from(n, k, index, i).len() == k,
        is_combination(n, spec_nth_combination_from(n, k, index, i)),
        forall|l: int| 0 <= l < k ==> #[trigger] spec_nth_combination_from(n, k, index, i)[l] >= i,
        spec_combination_rank(n, spec_nth_combination_from(n, k, index, i), i) == index,
    decreases n - i,
{
    let c = spec_nth_combination_from(n, k, index, i);
    if k == 0 {
    } else if i >= n {
        lemma_binomial_zero(0, k);
    } else {
        let count = spec_binomial((n - 1 - i) as nat, (k - 1) as nat);
        lemma_binomial_pascal((n - i) as nat, k);
        if count > index {
            let rest = spec_nth_combination_from(n, (k - 1) as nat, index, i + 1);
            lemma_nth_combination_from(n, (k - 1) as nat, index, i + 1);
            assert(c =~= seq![i as u8] + rest);
            assert(c.skip(1) =~= rest);
            assert forall|a: int, b: int| 0 <= a < b < c.len() implies c[a] < c[b] by {
                assert(c[b] == rest[b - 1]);
                if a > 0 {
                    assert(c[a] == rest[a - 1]);
                }
            }
            assert forall|l: int| 0 <= l < c.len() implies (#[trigger] c[l] as int) < n by {
                if l > 0 {
                    assert(c[l] == rest[l - 1]);
                }
            }
            assert forall|l: int| 0 <= l < k implies #[trigger] c[l] >= i by {
                if l > 0 {
                    assert(c[l] == rest[l - 1]);
                }
            }
        } else {
            lemma_nth_combination_from(n, k, (index - count) as nat, i + 1);
            assert(c[0] >= i + 1);
        }
    }
}

/// What `spec_nth_combination` gives is an ascending choice of `k` elements of
/// 0..n, and `index` is its rank.
pub proof fn lemma_nth_combination(n: int, k: int, index: nat)
    requires
        1 <= k <= n <= 256,
        index < spec_binomial(n as nat, k as nat),
    ensures
        spec_nth_combination(n, k, index).len() == k,
        is_combination(n, spec_nth_combination(n, k, index)),
        spec_combination_index(n, spec_nth_combination(n, k, index)) == index,
{
    lemma_nth_combination_from(n, k as nat, index, 0);
}

/// The ascending choice of `k` elements of 0..n of rank `index` in
/// lexicographic order; empty where `k` is not between 1 and `n`.
pub fn nth_combination(n: i64, k: i64, index: i64) -> (r: Vec<u8>)
    requires
        1 <= k <= n ==> n <= 256 && binomials_fit(n as int, k as int) && 0 <= index
            < spec_binomial(n as nat, k as nat),
    ensures
        r@ == spec_nth_combination(n as int, k as int, index as nat),
{
    if k < 1 || k > n {
        return Vec::new();
    }
    let mut size: i64 = 0;
    let mut index = index;
    let mut combination: Vec<u8> = Vec::with_capacity(k as usize);
    let ghost index0 = index as nat;
    let mut i: i64 = 0;
    while i < n
        invariant_except_break
            size < k,
        invariant
            0 <= i <= n <= 256,
            0 <= size <= k,
            1 <= k <= n,
            combination.len() == size,
            binomials_fit(n as int, k as int),
            0 <= index < spec_binomial((n - i) as nat, (k - size) as nat),
            combination@ + spec_nth_combination_from(
                n as int,
                (k - size) as nat,
                index as nat,
                i as int,
            ) == spec_nth_combination(n as int, k as int, index0),
        ensures
            combination@ == spec_nth_combination(n as int, k as int, index0),
        decreases n - i,
    {
        proof {
            lemma_binomial_pascal((n - i) as nat, (k - size) as nat);
            assert(binomial_fits(n - 1 - i, k - size - 1));
        }
        let count = binomial(n - 1 - i, k - size - 1);
        if count > index {
            proof {
                let rest = spec_nth_combination_from(
                    n as int,
                    (k - size - 1) as nat,
                    index as nat,
                    i + 1,
                );
                assert(combination@.push(i as u8) + rest =~= combination@ + (seq![i as u8] + rest));
            }
            combination.push(i as u8);
            size += 1;
            if size == k {
                proof {
                    assert(combination@ + Seq::<u8>::empty() =~= combination@);
                }
                break ;
            }
        } else {
            index -= count;
        }
        i += 1;
    }
    proof {
        if size < k {
            lemma_binomial_zero(0, (k - size) as nat);
        }
    }
    combination
}

/// Whether the permutation of rank `index` is even.
pub open spec fn spec_is_even(index: int) -> bool {
    spec_digit_sum(index, 2) % 2 == 0
}

/// Of two ranks that differ in their lowest bit alone, one belongs to an even
/// and one to an odd permutation.
pub proof fn lemma_parity_of_neighbours(half: int)
    requires
        half >= 0,
    ensures
        spec_is_even(2 * half) != spec_is_even(2 * half + 1),
{
    lemma_digit_sum_unfold(2 * half, 2);
    lemma_digit_sum_unfold(2 * half + 1, 2);
}

/// The ascending order has rank 0.
pub proof fn lemma_rank_of_ascending(p: Seq<u8>)
    requires
        is_ascending(p),
    ensures
        spec_permutation_index(p) == 0,
    decreases p.len(),
{
    if p.len() > 0 {
        lemma_count_less_none(p.skip(1), p[0] as int);
        lemma_rank_of_ascending(p.skip(1));
        assert(0 * spec_factorial((p.len() - 1) as nat) == 0);
    }
}

/// The sequence with the elements at positions `i` and `j` exchanged.
pub open spec fn spec_swapped(s: Seq<u8>, i: int, j: int) -> Seq<u8> {
    s.update(i, s[j]).update(j, s[i])
}

/// Whether the number of inversions is even.
pub open spec fn spec_is_even_sequence(s: Seq<u8>) -> bool {
    spec_inversions(s) % 2 == 0
}

proof fn lemma_count_less_first(s: Seq<u8>, v: int)
    requires
        s.len() > 0,
    ensures
        count_less(s, v) == count_less(s.skip(1), v) + if (s[0] as int) < v {
            1nat
        } else {
            0nat
        },
{
    assert(s =~= seq![s[0]] + s.skip(1));
    lemma_count_less_concat(seq![s[0]], s.skip(1), v);
    lemma_count_less_push(Seq::<u8>::empty(), s[0], v);
    assert(Seq::<u8>::empty().push(s[0]) =~= seq![s[0]]);
}

proof fn lemma_count_less_update(s: Seq<u8>, k: int, a: u8, v: int)
    requires
        0 <= k < s.len(),
    ensures
        count_less(s.update(k, a), v) + (if (s[k] as int) < v {
            1nat
        } else {
            0nat
        }) == count_less(s, v) + if (a as int) < v {
            1nat
        } else {
            0nat
        },
{
    let u = s.update(k, a);
    lemma_count_less_split(s, k, v);
    lemma_count_less_split(u, k, v);
    assert(u.take(k) =~= s.take(k));
    assert(u.skip(k + 1) =~= s.skip(k + 1));
}

proof fn lemma_count_less_swapped(s: Seq<u8>, i: int, j: int, v: int)
    requires
        0 <= i < j < s.len(),
    ensures
        count_less(spec_swapped(s, i, j), v) == count_less(s, v),
{
    lemma_count_less_update(s, i, s[j], v);
    lemma_count_less_update(s.update(i, s[j]), j, s[i], v);
}

proof fn lemma_adjacent_swap(s: Seq<u8>, i: int)
    requires
        0 <= i,
        i + 1 < s.len(),
        s[i] != s[i + 1],
    ensures
        spec_is_even_sequence(spec_swapped(s, i, i + 1)) != spec_is_even_sequence(s),
    decreases i,
{
    let w = spec_swapped(s, i, i + 1);
    if i == 0 {
        let a = s[0];
        let b = s[1];
        let r = s.skip(2);
        let st = s.skip(1);
        let wt = w.skip(1);
        assert(st.skip(1) =~= r);
        assert(wt.skip(1) =~= r);
        assert(st[0] == b);
        assert(wt[0] == a);
        assert(w[0] == b);
        lemma_count_less_first(st, a as int);
        lemma_count_less_first(wt, b as int);
        assert(spec_inversions(s) == count_less(st, a as int) + spec_inversions(st));
        assert(spec_inversions(st) == count_less(r, b as int) + spec_inversions(r));
        assert(spec_inversions(w) == count_less(wt, b as int) + spec_inversions(wt));
        assert(spec_inversions(wt) == count_less(r, a as int) + spec_inversions(r));
    } else {
        let st = s.skip(1);
        assert(w.skip(1) =~= spec_swapped(st, i - 1, i));
        assert(w[0] == s[0]);
        lemma_count_less_swapped(st, i - 1, i, s[0] as int);
        lemma_adjacent_swap(st, i - 1);
    }
}

/// Exchanging two different elements makes an even sequence odd and an odd one
/// even.
pub proof fn lemma_swap_flips_parity(s: Seq<u8>, i: int, j: int)
    requires
        0 <= i < j < s.len(),
        forall|a: int, b: int| 0 <= a < b < s.len() ==> s[a] != s[b],
    ensures
        spec_is_even_sequence(spec_swapped(s, i, j)) != spec_is_even_sequence(s),
        forall|a: int, b: int|
            0 <= a < b < s.len() ==> spec_swapped(s, i, j)[a] != spec_swapped(s, i, j)[b],
    decreases j - i,
{
    let w = spec_swapped(s, i, j);
    assert forall|a: int, b: int| 0 <= a < b < s.len() implies w[a] != w[b] by {
        let oa = if a == i {
            j
        } else if a == j {
            i
        } else {
            a
        };
        let ob = if b == i {
            j
        } else if b == j {
            i
        } else {
            b
        };
        assert(w[a] == s[oa] && w[b] == s[ob]);
        if oa < ob {
            assert(s[oa] != s[ob]);
        } else {
            assert(s[ob] != s[oa]);
        }
    }
    if j == i + 1 {
        assert(s[i] != s[i + 1]);
        lemma_adjacent_swap(s, i);
    } else {
        let s1 = spec_swapped(s, i, i + 1);
        let s2 = spec_swapped(s1, i + 1, j);
        let s3 = spec_swapped(s2, i, i + 1);
        assert(s[i] != s[i + 1]);
        lemma_adjacent_swap(s, i);
        lemma_swap_flips_parity(s, i, i + 1);
        lemma_swap_flips_parity(s1, i + 1, j);
        assert(s2[i] != s2[i + 1]);
        lemma_adjacent_swap(s2, i);
        assert(s3 =~= w);
    }
}

/// Whether two sequences hold every value equally often.
pub open spec fn same_elements(p: Seq<u8>, q: Seq<u8>) -> bool {
    forall|v: int| count_equal(p, v) == count_equal(q, v)
}

proof fn lemma_count_equal_concat(a: Seq<u8>, b: Seq<u8>, v: int)
    ensures
        count_equal(a + b, v) == count_equal(a, v) + count_equal(b, v),
    decreases b.len(),
{
    if b.len() == 0 {
        assert(a + b =~= a);
    } else {
        assert((a + b).drop_last() =~= a + b.drop_last());
        lemma_count_equal_concat(a, b.drop_last(), v);
    }
}

proof fn lemma_count_equal_first(s: Seq<u8>, v: int)
    requires
        s.len() > 0,
    ensures
        count_equal(s, v) == count_equal(s.skip(1), v) + if (s[0] as int) == v {
            1nat
        } else {
            0nat
        },
{
    let one = seq![s[0]];
    assert(s =~= one + s.skip(1));
    lemma_count_equal_concat(one, s.skip(1), v);
    assert(one.drop_last() =~= Seq::<u8>::empty());
    assert(one.last() == s[0]);
    assert(count_equal(one.drop_last(), v) == 0);
    assert(count_equal(one, v) == count_equal(one.drop_last(), v) + if (one.last() as int) == v {
        1nat
    } else {
        0nat
    });
}

proof fn lemma_count_equal_remove(s: Seq<u8>, pos: int, v: int)
    requires
        0 <= pos < s.len(),
    ensures
        count_equal(s, v) == count_equal(s.remove(pos), v) + if (s[pos] as int) == v {
            1nat
        } else {
            0nat
        },
{
    assert(s =~= s.take(pos) + s.skip(pos));
    assert(s.remove(pos) =~= s.take(pos) + s.skip(pos + 1));
    assert(s.skip(pos).skip(1) =~= s.skip(pos + 1));
    lemma_count_equal_concat(s.take(pos), s.skip(pos), v);
    lemma_count_equal_concat(s.take(pos), s.skip(pos + 1), v);
    lemma_count_equal_first(s.skip(pos), v);
}

proof fn lemma_count_equal_witness(s: Seq<u8>, v: int)
    requires
        count_equal(s, v) > 0,
    ensures
        exists|i: int| 0 <= i < s.len() && s[i] as int == v,
    decreases s.len(),
{
    if s.len() > 0 {
        if s.last() as int == v {
            assert(s[s.len() - 1] as int == v);
        } else {
            lemma_count_equal_witness(s.drop_last(), v);
            let i = choose|i: int| 0 <= i < s.drop_last().len() && s.drop_last()[i] as int == v;
            assert(s[i] as int == v);
        }
    }
}

/// Sequences that hold every value equally often hold equally many values
/// below any bound.
pub proof fn lemma_count_less_by_counts(p: Seq<u8>, q: Seq<u8>, v: int)
    requires
        same_elements(p, q),
    ensures
        count_less(p, v) == count_less(q, v),
    decreases v,
{
    if v <= 0 {
        lemma_count_less_none(p, v);
        lemma_count_less_none(q, v);
    } else {
        lemma_count_less_by_counts(p, q, v - 1);
        lemma_count_less_succ(p, v - 1);
        lemma_count_less_succ(q, v - 1);
    }
}

/// An arrangement of the elements `avail` is the arrangement that its rank
/// stands for.
#[verifier::rlimit(50)]
pub proof fn lemma_arrangement_of_rank(p: Seq<u8>, avail: Seq<u8>)
    requires
        is_ascending(avail),
        p.len() == avail.len(),
        same_elements(p, avail),
    ensures
        spec_nth_arrangement(spec_permutation_index(p), avail) == p,
    decreases p.len(),
{
    if p.len() == 0 {
        assert(p =~= Seq::<u8>::empty());
    } else {
        let n = p.len();
        let f = spec_factorial((n - 1) as nat);
        let tail = p.skip(1);
        let index = spec_permutation_index(p);
        lemma_count_equal_first(p, p[0] as int);
        lemma_count_equal_witness(avail, p[0] as int);
        let pos = choose|i: int| 0 <= i < avail.len() && avail[i] as int == p[0] as int;
        let rest = avail.remove(pos);
        assert forall|v: int| count_equal(tail, v) == count_equal(rest, v) by {
            lemma_count_equal_first(p, v);
            lemma_count_equal_remove(avail, pos, v);
        }
        assert(is_ascending(rest));
        lemma_count_less_by_counts(tail, rest, p[0] as int);
        assert(count_less(rest, avail[pos] as int) == pos) by {
            assert(rest =~= avail.take(pos) + avail.skip(pos + 1));
            lemma_count_less_concat(avail.take(pos), avail.skip(pos + 1), avail[pos] as int);
            lemma_count_less_all(avail.take(pos), avail[pos] as int);
            lemma_count_less_none(avail.skip(pos + 1), avail[pos] as int);
        }
        lemma_permutation_index_bound(tail);
        lemma_factorial_positive((n - 1) as nat);
        let upper = spec_permutation_index(tail);
        assert(index == pos * f + upper);
        lemma_fundamental_div_mod_converse(index as int, f as int, pos, upper as int);
        assert(arrangement_position(index, n) == pos);
        lemma_arrangement_of_rank(tail, rest);
        assert(spec_nth_arrangement(index, avail) =~= seq![avail[pos]] + tail);
        assert(seq![avail[pos]] + tail =~= p);
    }
}

proof fn lemma_counts_of_identity(n: nat, v: int)
    requires
        n <= 256,
    ensures
        count_equal(identity_permutation(n), v) == if 0 <= v < n {
            1nat
        } else {
            0nat
        },
    decreases n,
{
    if n > 0 {
        lemma_counts_of_identity((n - 1) as nat, v);
        assert(identity_permutation(n).drop_last() =~= identity_permutation((n - 1) as nat));
    }
}

/// A permutation is the permutation that its rank stands for.
pub proof fn lemma_permutation_of_rank(p: Seq<u8>)
    requires
        is_permutation(p),
        p.len() <= 256,
    ensures
        spec_nth_permutation(spec_permutation_index(p), p.len()) == p,
{
    let n = p.len();
    let id = identity_permutation(n);
    assert forall|v: int| count_equal(p, v) == count_equal(id, v) by {
        lemma_counts_of_identity(n, v);
        if 0 <= v < n {
            lemma_permutation_count_less(p, v);
            lemma_permutation_count_less(p, v + 1);
            lemma_count_less_succ(p, v);
        } else {
            lemma_count_equal_absent(p, v);
        }
    }
    lemma_arrangement_of_rank(p, id);
}

proof fn lemma_skipped_first(n: int, r: int, from: int, to: int)
    requires
        from < to,
    ensures
        spec_skipped(n, r, from, to) == spec_binomial((n - 1 - from) as nat, r as nat) + spec_skipped(
            n,
            r,
            from + 1,
            to,
        ),
{
}

/// The rank of a choice of k elements of lo..n is below the number of such
/// choices.
pub proof fn lemma_combination_rank_bound(n: int, c: Seq<u8>, lo: int)
    requires
        0 <= lo <= n,
        is_combination(n, c),
        forall|i: int| 0 <= i < c.len() ==> (#[trigger] c[i] as int) >= lo,
    ensures
        spec_combination_rank(n, c, lo) < spec_binomial((n - lo) as nat, c.len()),
    decreases n - lo,
{
    let k = c.len();
    if k > 0 {
        let rest = c.skip(1);
        assert(c[0] as int >= lo);
        assert((c[0] as int) < n);
        lemma_binomial_pascal((n - lo) as nat, k);
        assert forall|i: int| 0 <= i < rest.len() implies (#[trigger] rest[i] as int) >= c[0] + 1 by {
            assert(rest[i] == c[i + 1]);
            assert(c[0] < c[i + 1]);
        }
        assert(is_combination(n, rest));
        if c[0] as int == lo {
            assert(spec_skipped(n, k - 1, lo, lo) == 0);
            lemma_combination_rank_bound(n, rest, lo + 1);
        } else {
            lemma_skipped_first(n, k - 1, lo, c[0] as int);
            lemma_combination_rank_bound(n, c, lo + 1);
        }
    }
}

/// A choice of elements of lo..n is the choice that its rank stands for.
pub proof fn lemma_combination_of_rank_from(n: int, c: Seq<u8>, lo: int)
    requires
        0 <= lo <= n <= 256,
        is_combination(n, c),
        forall|i: int| 0 <= i < c.len() ==> (#[trigger] c[i] as int) >= lo,
    ensures
        spec_nth_combination_from(n, c.len(), spec_combination_rank(n, c, lo), lo) == c,
    decreases n - lo,
{
    let k = c.len();
    if k == 0 {
        assert(c =~= Seq::<u8>::empty());
    } else {
        let rest = c.skip(1);
        assert(c[0] as int >= lo);
        assert((c[0] as int) < n);
        assert forall|i: int| 0 <= i < rest.len() implies (#[trigger] rest[i] as int) >= c[0] + 1 by {
            assert(rest[i] == c[i + 1]);
            assert(c[0] < c[i + 1]);
        }
        assert(is_combination(n, rest));
        let count = spec_binomial((n - 1 - lo) as nat, (k - 1) as nat);
        if c[0] as int == lo {
            assert(spec_skipped(n, k - 1, lo, lo) == 0);
            lemma_combination_rank_bound(n, rest, lo + 1);
            lemma_combination_of_rank_from(n, rest, lo + 1);
            assert(seq![lo as u8] + rest =~= c);
        } else {
            lemma_skipped_first(n, k - 1, lo, c[0] as int);
            lemma_combination_of_rank_from(n, c, lo + 1);
        }
    }
}

/// A choice of elements of 0..n is the choice that its rank stands for.
pub proof fn lemma_combination_of_rank(n: int, c: Seq<u8>)
    requires
        0 <= n <= 256,
        c.len() >= 1,
        is_combination(n, c),
    ensures
        spec_nth_combination(n, c.len() as int, spec_combination_index(n, c)) == c,
{
    if c.len() > n {
        lemma_ascending_floor(c, c.len() - 1);
    }
    lemma_combination_of_rank_from(n, c, 0);
}

} // verus!
