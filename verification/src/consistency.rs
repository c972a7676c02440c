//! The coordinates of the cube follow the cubies: the indices of the cubies
//! after a turn are what the move tables hold for the indices before it.

use crate::corners::{
    corner_orientations_of, corner_source, corner_state_of, corner_state_ok,
    corner_twisted_state, lemma_corner_state_of, lemma_corners_equal,
    lemma_corners_twisted_state, lemma_orientations_one_by_one, lemma_solved_corners,
    spec_ori_swap_0_1, spec_ori_swap_0_2,
    spec_ori_swap_1_2, Corners,
};
use crate::bits::{bit_is_set, count_set_below, lemma_count_insert_bit, lemma_insert_bit, lemma_zero_has_no_bits};
use crate::edges::{
    edge_cubies_of, edge_on_face, edge_orientations_of, edge_source, edge_state_of, edge_state_ok,
    edge_twisted_state, edge_weight, lemma_edge_state_of, lemma_edges_equal, lemma_solved_edges,
    lemma_edges_twisted_state, lemma_part_len, lemma_parts_of_permutation, lemma_slice_places,
    spec_interleave, spec_ori_value, spec_part, spec_slice_places, Edges,
};
use crate::math::{
    lemma_combination_of_rank, lemma_combination_rank_bound,
    lemma_factorial_table, lemma_nth_permutation, lemma_pascal_table,
    lemma_permutation_index_bound, lemma_permutation_of_rank, spec_nth_combination,
    spec_nth_permutation,
};
use crate::cube::{lemma_twisted_by_one_more, Cube};
use crate::parity::{
    corners_twisted_by, edge_cubies_after, edges_twisted_by, lemma_edge_cubies_after,
};
use crate::twist::{Twist, Twistable};
use crate::twister::{
    spec_twisted_c_ori, spec_twisted_c_prm, spec_twisted_e_non_slice_prm, spec_twisted_e_ori,
    spec_twisted_e_slice_loc, spec_twisted_e_slice_prm,
};
use vstd::prelude::*;

verus! {

/// Whether the eighth of eight orientations is what the first seven determine.
pub open spec fn orientations_balanced(
    o0: int,
    o1: int,
    o2: int,
    o3: int,
    o4: int,
    o5: int,
    o6: int,
    o7: int,
) -> bool {
    (12 + o0 - o1 - o2 + o3 - o4 + o5 + o6) % 3 == o7
}

/// Whether the orientations of the corners are such as turns lead to from the
/// solved cube: the eighth is what the first seven determine.
pub open spec fn corner_balanced(s: Seq<u8>) -> bool {
    orientations_balanced(
        s[0] as int / 16,
        s[1] as int / 16,
        s[2] as int / 16,
        s[3] as int / 16,
        s[4] as int / 16,
        s[5] as int / 16,
        s[6] as int / 16,
        s[7] as int / 16,
    )
}

/// What the three exchanges of orientations make of the orientation of a byte.
proof fn lemma_swapped_orientation(b: u8)
    requires
        b < 48,
    ensures
        spec_ori_swap_0_2(b) as int / 16 == 2 - b as int / 16,
        spec_ori_swap_1_2(b) as int / 16 == (if b as int / 16 == 0 {
            0
        } else {
            3 - b as int / 16
        }),
        spec_ori_swap_0_1(b) as int / 16 == (if b as int / 16 == 2 {
            2
        } else {
            1 - b as int / 16
        }),
        spec_ori_swap_0_2(b) % 16 == b % 16,
        spec_ori_swap_1_2(b) % 16 == b % 16,
        spec_ori_swap_0_1(b) % 16 == b % 16,
        spec_ori_swap_0_2(b) < 48,
        spec_ori_swap_1_2(b) < 48,
        spec_ori_swap_0_1(b) < 48,
{
}

proof fn lemma_balance_l1(o0: int, o1: int, o2: int, o3: int, o4: int, o5: int, o6: int, o7: int)
    requires
        0 <= o0 < 3,
        0 <= o1 < 3,
        0 <= o2 < 3,
        0 <= o3 < 3,
        0 <= o4 < 3,
        0 <= o5 < 3,
        0 <= o6 < 3,
        0 <= o7 < 3,
        orientations_balanced(o0, o1, o2, o3, o4, o5, o6, o7),
    ensures
        orientations_balanced(
            2 - o2,
            o1,
            2 - o6,
            o3,
            2 - o0,
            o5,
            2 - o4,
            o7,
        ),
{
}

proof fn lemma_balance_l2(o0: int, o1: int, o2: int, o3: int, o4: int, o5: int, o6: int, o7: int)
    requires
        0 <= o0 < 3,
        0 <= o1 < 3,
        0 <= o2 < 3,
        0 <= o3 < 3,
        0 <= o4 < 3,
        0 <= o5 < 3,
        0 <= o6 < 3,
        0 <= o7 < 3,
        orientations_balanced(o0, o1, o2, o3, o4, o5, o6, o7),
    ensures
        orientations_balanced(
            o6,
            o1,
            o4,
            o3,
            o2,
            o5,
            o0,
            o7,
        ),
{
}

proof fn lemma_balance_l3(o0: int, o1: int, o2: int, o3: int, o4: int, o5: int, o6: int, o7: int)
    requires
        0 <= o0 < 3,
        0 <= o1 < 3,
        0 <= o2 < 3,
        0 <= o3 < 3,
        0 <= o4 < 3,
        0 <= o5 < 3,
        0 <= o6 < 3,
        0 <= o7 < 3,
        orientations_balanced(o0, o1, o2, o3, o4, o5, o6, o7),
    ensures
        orientations_balanced(
            2 - o4,
            o1,
            2 - o0,
            o3,
            2 - o6,
            o5,
            2 - o2,
            o7,
        ),
{
}

proof fn lemma_balance_r1(o0: int, o1: int, o2: int, o3: int, o4: int, o5: int, o6: int, o7: int)
    requires
        0 <= o0 < 3,
        0 <= o1 < 3,
        0 <= o2 < 3,
        0 <= o3 < 3,
        0 <= o4 < 3,
        0 <= o5 < 3,
        0 <= o6 < 3,
        0 <= o7 < 3,
        orientations_balanced(o0, o1, o2, o3, o4, o5, o6, o7),
    ensures
        orientations_balanced(
            o0,
            2 - o5,
            o2,
            2 - o1,
            o4,
            2 - o7,
            o6,
            2 - o3,
        ),
{
}

proof fn lemma_balance_r2(o0: int, o1: int, o2: int, o3: int, o4: int, o5: int, o6: int, o7: int)
    requires
        0 <= o0 < 3,
        0 <= o1 < 3,
        0 <= o2 < 3,
        0 <= o3 < 3,
        0 <= o4 < 3,
        0 <= o5 < 3,
        0 <= o6 < 3,
        0 <= o7 < 3,
        orientations_balanced(o0, o1, o2, o3, o4, o5, o6, o7),
    ensures
        orientations_balanced(
            o0,
            o7,
            o2,
            o5,
            o4,
            o3,
            o6,
            o1,
        ),
{
}

proof fn lemma_balance_r3(o0: int, o1: int, o2: int, o3: int, o4: int, o5: int, o6: int, o7: int)
    requires
        0 <= o0 < 3,
        0 <= o1 < 3,
        0 <= o2 < 3,
        0 <= o3 < 3,
        0 <= o4 < 3,
        0 <= o5 < 3,
        0 <= o6 < 3,
        0 <= o7 < 3,
        orientations_balanced(o0, o1, o2, o3, o4, o5, o6, o7),
    ensures
        orientations_balanced(
            o0,
            2 - o3,
            o2,
            2 - o7,
            o4,
            2 - o1,
            o6,
            2 - o5,
        ),
{
}

proof fn lemma_balance_u1(o0: int, o1: int, o2: int, o3: int, o4: int, o5: int, o6: int, o7: int)
    requires
        0 <= o0 < 3,
        0 <= o1 < 3,
        0 <= o2 < 3,
        0 <= o3 < 3,
        0 <= o4 < 3,
        0 <= o5 < 3,
        0 <= o6 < 3,
        0 <= o7 < 3,
        orientations_balanced(o0, o1, o2, o3, o4, o5, o6, o7),
    ensures
        orientations_balanced(
            (if o1 == 0 {
                0
            } else {
                3 - o1
            }),
            (if o3 == 0 {
                0
            } else {
                3 - o3
            }),
            (if o0 == 0 {
                0
            } else {
                3 - o0
            }),
            (if o2 == 0 {
                0
            } else {
                3 - o2
            }),
            o4,
            o5,
            o6,
            o7,
        ),
{
}

proof fn lemma_balance_u2(o0: int, o1: int, o2: int, o3: int, o4: int, o5: int, o6: int, o7: int)
    requires
        0 <= o0 < 3,
        0 <= o1 < 3,
        0 <= o2 < 3,
        0 <= o3 < 3,
        0 <= o4 < 3,
        0 <= o5 < 3,
        0 <= o6 < 3,
        0 <= o7 < 3,
        orientations_balanced(o0, o1, o2, o3, o4, o5, o6, o7),
    ensures
        orientations_balanced(
            o3,
            o2,
            o1,
            o0,
            o4,
            o5,
            o6,
            o7,
        ),
{
}

proof fn lemma_balance_u3(o0: int, o1: int, o2: int, o3: int, o4: int, o5: int, o6: int, o7: int)
    requires
        0 <= o0 < 3,
        0 <= o1 < 3,
        0 <= o2 < 3,
        0 <= o3 < 3,
        0 <= o4 < 3,
        0 <= o5 < 3,
        0 <= o6 < 3,
        0 <= o7 < 3,
        orientations_balanced(o0, o1, o2, o3, o4, o5, o6, o7),
    ensures
        orientations_balanced(
            (if o2 == 0 {
                0
            } else {
                3 - o2
            }),
            (if o0 == 0 {
                0
            } else {
                3 - o0
            }),
            (if o3 == 0 {
                0
            } else {
                3 - o3
            }),
            (if o1 == 0 {
                0
            } else {
                3 - o1
            }),
            o4,
            o5,
            o6,
            o7,
        ),
{
}

proof fn lemma_balance_d1(o0: int, o1: int, o2: int, o3: int, o4: int, o5: int, o6: int, o7: int)
    requires
        0 <= o0 < 3,
        0 <= o1 < 3,
        0 <= o2 < 3,
        0 <= o3 < 3,
        0 <= o4 < 3,
        0 <= o5 < 3,
        0 <= o6 < 3,
        0 <= o7 < 3,
        orientations_balanced(o0, o1, o2, o3, o4, o5, o6, o7),
    ensures
        orientations_balanced(
            o0,
            o1,
            o2,
            o3,
            (if o6 == 0 {
                0
            } else {
                3 - o6
            }),
            (if o4 == 0 {
                0
            } else {
                3 - o4
            }),
            (if o7 == 0 {
                0
            } else {
                3 - o7
            }),
            (if o5 == 0 {
                0
            } else {
                3 - o5
            }),
        ),
{
}

proof fn lemma_balance_d2(o0: int, o1: int, o2: int, o3: int, o4: int, o5: int, o6: int, o7: int)
    requires
        0 <= o0 < 3,
        0 <= o1 < 3,
        0 <= o2 < 3,
        0 <= o3 < 3,
        0 <= o4 < 3,
        0 <= o5 < 3,
        0 <= o6 < 3,
        0 <= o7 < 3,
        orientations_balanced(o0, o1, o2, o3, o4, o5, o6, o7),
    ensures
        orientations_balanced(
            o0,
            o1,
            o2,
            o3,
            o7,
            o6,
            o5,
            o4,
        ),
{
}

proof fn lemma_balance_d3(o0: int, o1: int, o2: int, o3: int, o4: int, o5: int, o6: int, o7: int)
    requires
        0 <= o0 < 3,
        0 <= o1 < 3,
        0 <= o2 < 3,
        0 <= o3 < 3,
        0 <= o4 < 3,
        0 <= o5 < 3,
        0 <= o6 < 3,
        0 <= o7 < 3,
        orientations_balanced(o0, o1, o2, o3, o4, o5, o6, o7),
    ensures
        orientations_balanced(
            o0,
            o1,
            o2,
            o3,
            (if o5 == 0 {
                0
            } else {
                3 - o5
            }),
            (if o7 == 0 {
                0
            } else {
                3 - o7
            }),
            (if o4 == 0 {
                0
            } else {
                3 - o4
            }),
            (if o6 == 0 {
                0
            } else {
                3 - o6
            }),
        ),
{
}

proof fn lemma_balance_f1(o0: int, o1: int, o2: int, o3: int, o4: int, o5: int, o6: int, o7: int)
    requires
        0 <= o0 < 3,
        0 <= o1 < 3,
        0 <= o2 < 3,
        0 <= o3 < 3,
        0 <= o4 < 3,
        0 <= o5 < 3,
        0 <= o6 < 3,
        0 <= o7 < 3,
        orientations_balanced(o0, o1, o2, o3, o4, o5, o6, o7),
    ensures
        orientations_balanced(
            (if o4 == 2 {
                2
            } else {
                1 - o4
            }),
            (if o0 == 2 {
                2
            } else {
                1 - o0
            }),
            o2,
            o3,
            (if o5 == 2 {
                2
            } else {
                1 - o5
            }),
            (if o1 == 2 {
                2
            } else {
                1 - o1
            }),
            o6,
            o7,
        ),
{
}

proof fn lemma_balance_f2(o0: int, o1: int, o2: int, o3: int, o4: int, o5: int, o6: int, o7: int)
    requires
        0 <= o0 < 3,
        0 <= o1 < 3,
        0 <= o2 < 3,
        0 <= o3 < 3,
        0 <= o4 < 3,
        0 <= o5 < 3,
        0 <= o6 < 3,
        0 <= o7 < 3,
        orientations_balanced(o0, o1, o2, o3, o4, o5, o6, o7),
    ensures
        orientations_balanced(
            o5,
            o4,
            o2,
            o3,
            o1,
            o0,
            o6,
            o7,
        ),
{
}

proof fn lemma_balance_f3(o0: int, o1: int, o2: int, o3: int, o4: int, o5: int, o6: int, o7: int)
    requires
        0 <= o0 < 3,
        0 <= o1 < 3,
        0 <= o2 < 3,
        0 <= o3 < 3,
        0 <= o4 < 3,
        0 <= o5 < 3,
        0 <= o6 < 3,
        0 <= o7 < 3,
        orientations_balanced(o0, o1, o2, o3, o4, o5, o6, o7),
    ensures
        orientations_balanced(
            (if o1 == 2 {
                2
            } else {
                1 - o1
            }),
            (if o5 == 2 {
                2
            } else {
                1 - o5
            }),
            o2,
            o3,
            (if o0 == 2 {
                2
            } else {
                1 - o0
            }),
            (if o4 == 2 {
                2
            } else {
                1 - o4
            }),
            o6,
            o7,
        ),
{
}

proof fn lemma_balance_b1(o0: int, o1: int, o2: int, o3: int, o4: int, o5: int, o6: int, o7: int)
    requires
        0 <= o0 < 3,
        0 <= o1 < 3,
        0 <= o2 < 3,
        0 <= o3 < 3,
        0 <= o4 < 3,
        0 <= o5 < 3,
        0 <= o6 < 3,
        0 <= o7 < 3,
        orientations_balanced(o0, o1, o2, o3, o4, o5, o6, o7),
    ensures
        orientations_balanced(
            o0,
            o1,
            (if o3 == 2 {
                2
            } else {
                1 - o3
            }),
            (if o7 == 2 {
                2
            } else {
                1 - o7
            }),
            o4,
            o5,
            (if o2 == 2 {
                2
            } else {
                1 - o2
            }),
            (if o6 == 2 {
                2
            } else {
                1 - o6
            }),
        ),
{
}

proof fn lemma_balance_b2(o0: int, o1: int, o2: int, o3: int, o4: int, o5: int, o6: int, o7: int)
    requires
        0 <= o0 < 3,
        0 <= o1 < 3,
        0 <= o2 < 3,
        0 <= o3 < 3,
        0 <= o4 < 3,
        0 <= o5 < 3,
        0 <= o6 < 3,
        0 <= o7 < 3,
        orientations_balanced(o0, o1, o2, o3, o4, o5, o6, o7),
    ensures
        orientations_balanced(
            o0,
            o1,
            o7,
            o6,
            o4,
            o5,
            o3,
            o2,
        ),
{
}

proof fn lemma_balance_b3(o0: int, o1: int, o2: int, o3: int, o4: int, o5: int, o6: int, o7: int)
    requires
        0 <= o0 < 3,
        0 <= o1 < 3,
        0 <= o2 < 3,
        0 <= o3 < 3,
        0 <= o4 < 3,
        0 <= o5 < 3,
        0 <= o6 < 3,
        0 <= o7 < 3,
        orientations_balanced(o0, o1, o2, o3, o4, o5, o6, o7),
    ensures
        orientations_balanced(
            o0,
            o1,
            (if o6 == 2 {
                2
            } else {
                1 - o6
            }),
            (if o2 == 2 {
                2
            } else {
                1 - o2
            }),
            o4,
            o5,
            (if o7 == 2 {
                2
            } else {
                1 - o7
            }),
            (if o3 == 2 {
                2
            } else {
                1 - o3
            }),
        ),
{
}

/// A turn leaves the orientations of the corners balanced.
pub proof fn lemma_turn_keeps_balance(s: Seq<u8>, t: Twist)
    requires
        corner_state_ok(s),
        corner_balanced(s),
    ensures
        corner_balanced(corner_twisted_state(s, t)),
{
    let n = corner_twisted_state(s, t);
    let o0 = s[0] as int / 16;
    let o1 = s[1] as int / 16;
    let o2 = s[2] as int / 16;
    let o3 = s[3] as int / 16;
    let o4 = s[4] as int / 16;
    let o5 = s[5] as int / 16;
    let o6 = s[6] as int / 16;
    let o7 = s[7] as int / 16;
    assert(s[0] < 48 && s[1] < 48 && s[2] < 48 && s[3] < 48);
    assert(s[4] < 48 && s[5] < 48 && s[6] < 48 && s[7] < 48);
    lemma_swapped_orientation(s[0]);
    lemma_swapped_orientation(s[1]);
    lemma_swapped_orientation(s[2]);
    lemma_swapped_orientation(s[3]);
    lemma_swapped_orientation(s[4]);
    lemma_swapped_orientation(s[5]);
    lemma_swapped_orientation(s[6]);
    lemma_swapped_orientation(s[7]);
    match t {
        Twist::L1 => lemma_balance_l1(o0, o1, o2, o3, o4, o5, o6, o7),
        Twist::L2 => lemma_balance_l2(o0, o1, o2, o3, o4, o5, o6, o7),
        Twist::L3 => lemma_balance_l3(o0, o1, o2, o3, o4, o5, o6, o7),
        Twist::R1 => lemma_balance_r1(o0, o1, o2, o3, o4, o5, o6, o7),
        Twist::R2 => lemma_balance_r2(o0, o1, o2, o3, o4, o5, o6, o7),
        Twist::R3 => lemma_balance_r3(o0, o1, o2, o3, o4, o5, o6, o7),
        Twist::U1 => lemma_balance_u1(o0, o1, o2, o3, o4, o5, o6, o7),
        Twist::U2 => lemma_balance_u2(o0, o1, o2, o3, o4, o5, o6, o7),
        Twist::U3 => lemma_balance_u3(o0, o1, o2, o3, o4, o5, o6, o7),
        Twist::D1 => lemma_balance_d1(o0, o1, o2, o3, o4, o5, o6, o7),
        Twist::D2 => lemma_balance_d2(o0, o1, o2, o3, o4, o5, o6, o7),
        Twist::D3 => lemma_balance_d3(o0, o1, o2, o3, o4, o5, o6, o7),
        Twist::F1 => lemma_balance_f1(o0, o1, o2, o3, o4, o5, o6, o7),
        Twist::F2 => lemma_balance_f2(o0, o1, o2, o3, o4, o5, o6, o7),
        Twist::F3 => lemma_balance_f3(o0, o1, o2, o3, o4, o5, o6, o7),
        Twist::B1 => lemma_balance_b1(o0, o1, o2, o3, o4, o5, o6, o7),
        Twist::B2 => lemma_balance_b2(o0, o1, o2, o3, o4, o5, o6, o7),
        Twist::B3 => lemma_balance_b3(o0, o1, o2, o3, o4, o5, o6, o7),
    }
}

/// Seven digits in base 3 are the digits of the number that they make.
proof fn lemma_digits_of_sum(d0: int, d1: int, d2: int, d3: int, d4: int, d5: int, d6: int)
    requires
        0 <= d0 < 3,
        0 <= d1 < 3,
        0 <= d2 < 3,
        0 <= d3 < 3,
        0 <= d4 < 3,
        0 <= d5 < 3,
        0 <= d6 < 3,
    ensures
        ({
            let ori = d0 + d1 * 3 + d2 * 9 + d3 * 27 + d4 * 81 + d5 * 243 + d6 * 729;
            &&& 0 <= ori < 2187
            &&& ori % 3 == d0
            &&& (ori / 3) % 3 == d1
            &&& (ori / 9) % 3 == d2
            &&& (ori / 27) % 3 == d3
            &&& (ori / 81) % 3 == d4
            &&& (ori / 243) % 3 == d5
            &&& (ori / 729) % 3 == d6
        }),
{
    let q6 = d6;
    let q5 = d5 + 3 * q6;
    let q4 = d4 + 3 * q5;
    let q3 = d3 + 3 * q4;
    let q2 = d2 + 3 * q3;
    let q1 = d1 + 3 * q2;
    let ori = d0 + 3 * q1;
    assert(ori / 3 == q1 && ori % 3 == d0);
    assert(q1 / 3 == q2 && q1 % 3 == d1);
    assert(q2 / 3 == q3 && q2 % 3 == d2);
    assert(q3 / 3 == q4 && q3 % 3 == d3);
    assert(q4 / 3 == q5 && q4 % 3 == d4);
    assert(q5 / 3 == q6 && q5 % 3 == d5);
    assert(ori / 9 == q2);
    assert(ori / 27 == q3);
    assert(ori / 81 == q4);
    assert(ori / 243 == q5);
    assert(ori / 729 == q6);
}

/// The orientations that the orientation index of balanced corners stands for
/// are the orientations of the corners.
#[verifier::rlimit(50)]
proof fn lemma_orientations_of_index(c: Corners)
    requires
        c.well_formed(),
        corner_balanced(c.spec_state()),
    ensures
        0 <= c.spec_ori_index() < 2187,
        forall|i: int|
            0 <= i < 8 ==> #[trigger] corner_orientations_of(c.spec_ori_index())[i]
                == c.spec_orientation(i),
{
    let s = c.spec_state();
    let ori = c.spec_ori_index();
    assert(s[0] < 48 && s[1] < 48 && s[2] < 48 && s[3] < 48);
    assert(s[4] < 48 && s[5] < 48 && s[6] < 48 && s[7] < 48);
    let d0 = c.spec_orientation(0) as int;
    let d1 = c.spec_orientation(1) as int;
    let d2 = c.spec_orientation(2) as int;
    let d3 = c.spec_orientation(3) as int;
    let d4 = c.spec_orientation(4) as int;
    let d5 = c.spec_orientation(5) as int;
    let d6 = c.spec_orientation(6) as int;
    let d7 = c.spec_orientation(7) as int;
    assert(d0 == s[0] as int / 16 && d1 == s[1] as int / 16 && d2 == s[2] as int / 16);
    assert(d3 == s[3] as int / 16 && d4 == s[4] as int / 16 && d5 == s[5] as int / 16);
    assert(d6 == s[6] as int / 16 && d7 == s[7] as int / 16);
    assert(ori == d0 + d1 * 3 + d2 * 9 + d3 * 27 + d4 * 81 + d5 * 243 + d6 * 729);
    lemma_digits_of_sum(d0, d1, d2, d3, d4, d5, d6);
    lemma_orientations_one_by_one(ori);
    lemma_eight_orientations(corner_orientations_of(ori), ori, d0, d1, d2, d3, d4, d5, d6, d7);
    assert forall|i: int| 0 <= i < 8 implies #[trigger] corner_orientations_of(ori)[i]
        == c.spec_orientation(i) by {
        if i == 0 {
        } else if i == 1 {
        } else if i == 2 {
        } else if i == 3 {
        } else if i == 4 {
        } else if i == 5 {
        } else if i == 6 {
        } else {
        }
    }
}

proof fn lemma_eight_orientations(
    o: Seq<u8>,
    ori: int,
    d0: int,
    d1: int,
    d2: int,
    d3: int,
    d4: int,
    d5: int,
    d6: int,
    d7: int,
)
    requires
        o.len() == 8,
        0 <= d0 < 3,
        0 <= d1 < 3,
        0 <= d2 < 3,
        0 <= d3 < 3,
        0 <= d4 < 3,
        0 <= d5 < 3,
        0 <= d6 < 3,
        0 <= d7 < 3,
        orientations_balanced(d0, d1, d2, d3, d4, d5, d6, d7),
        ori % 3 == d0,
        (ori / 3) % 3 == d1,
        (ori / 9) % 3 == d2,
        (ori / 27) % 3 == d3,
        (ori / 81) % 3 == d4,
        (ori / 243) % 3 == d5,
        (ori / 729) % 3 == d6,
        o[0] == (ori % 3) as u8,
        o[1] == ((ori / 3) % 3) as u8,
        o[2] == ((ori / 9) % 3) as u8,
        o[3] == ((ori / 27) % 3) as u8,
        o[4] == ((ori / 81) % 3) as u8,
        o[5] == ((ori / 243) % 3) as u8,
        o[6] == ((ori / 729) % 3) as u8,
        o[7] == ((12 + ori % 3 - (ori / 3) % 3 - (ori / 9) % 3 + (ori / 27) % 3 - (ori / 81) % 3 + (ori
            / 243) % 3 + (ori / 729) % 3) % 3) as u8,
    ensures
        o[0] == d0,
        o[1] == d1,
        o[2] == d2,
        o[3] == d3,
        o[4] == d4,
        o[5] == d5,
        o[6] == d6,
        o[7] == d7,
{
}

/// Bytes with the same cubies and the same orientations are the same.
proof fn lemma_bytes_by_parts(a: Seq<u8>, b: Seq<u8>)
    requires
        a.len() == b.len(),
        forall|i: int| 0 <= i < a.len() ==> #[trigger] a[i] % 16 == b[i] % 16,
        forall|i: int| 0 <= i < a.len() ==> #[trigger] a[i] / 16 == b[i] / 16,
    ensures
        a == b,
{
    assert forall|i: int| 0 <= i < a.len() implies a[i] == b[i] by {
        assert(a[i] % 16 == b[i] % 16);
        assert(a[i] / 16 == b[i] / 16);
    }
    assert(a =~= b);
}

/// Well-formed corners with balanced orientations are the corners that their
/// two indices stand for.
#[verifier::rlimit(50)]
pub proof fn lemma_corners_of_indices(c: Corners)
    requires
        c.well_formed(),
        corner_balanced(c.spec_state()),
    ensures
        c.spec_prm_index() < 40320,
        0 <= c.spec_ori_index() < 2187,
        corner_state_of(c.spec_prm_index() as int, c.spec_ori_index()) == c.spec_state(),
        Corners::spec_from_index(c.spec_prm_index() as int, c.spec_ori_index()) == c,
{
    let s = c.spec_state();
    let prm = c.spec_prm_index() as int;
    let ori = c.spec_ori_index();
    let p = c.spec_cubies();
    assert forall|i: int| 0 <= i < p.len() implies (#[trigger] p[i] as int) < p.len() by {
        assert(s[i] % 16 < 8);
    }
    lemma_permutation_index_bound(p);
    lemma_factorial_table(8);
    lemma_permutation_of_rank(p);
    lemma_orientations_of_index(c);
    lemma_corner_state_of(prm, ori);
    let want = corner_state_of(prm, ori);
    assert forall|i: int| 0 <= i < 8 implies #[trigger] want[i] % 16 == s[i] % 16 by {
        assert(p[i] == s[i] % 16);
    }
    assert forall|i: int| 0 <= i < 8 implies #[trigger] want[i] / 16 == s[i] / 16 by {
        assert(corner_orientations_of(ori)[i] == c.spec_orientation(i));
    }
    lemma_bytes_by_parts(want, s);
    lemma_corners_equal(Corners::spec_from_index(prm, ori), c);
}

/// The orientations after a turn are those of any corners with the same
/// orientations before it, and the cubies after a turn are those of any
/// corners with the same cubies before it.
proof fn lemma_turn_by_parts(s: Seq<u8>, a: Seq<u8>, t: Twist)
    requires
        corner_state_ok(s),
        corner_state_ok(a),
    ensures
        (forall|i: int| 0 <= i < 8 ==> #[trigger] s[i] / 16 == a[i] / 16) ==> (forall|i: int|
            0 <= i < 8 ==> #[trigger] corner_twisted_state(s, t)[i] / 16 == corner_twisted_state(
                a,
                t,
            )[i] / 16),
        (forall|i: int| 0 <= i < 8 ==> #[trigger] s[i] % 16 == a[i] % 16) ==> (forall|i: int|
            0 <= i < 8 ==> #[trigger] corner_twisted_state(s, t)[i] % 16 == corner_twisted_state(
                a,
                t,
            )[i] % 16),
{
    if forall|i: int| 0 <= i < 8 ==> #[trigger] s[i] / 16 == a[i] / 16 {
        assert forall|i: int| 0 <= i < 8 implies #[trigger] corner_twisted_state(s, t)[i] / 16
            == corner_twisted_state(a, t)[i] / 16 by {
            let k = corner_source(t, i);
            assert(s[k] / 16 == a[k] / 16);
            lemma_swapped_orientation(s[k]);
            lemma_swapped_orientation(a[k]);
        }
    }
    if forall|i: int| 0 <= i < 8 ==> #[trigger] s[i] % 16 == a[i] % 16 {
        assert forall|i: int| 0 <= i < 8 implies #[trigger] corner_twisted_state(s, t)[i] % 16
            == corner_twisted_state(a, t)[i] % 16 by {
            let k = corner_source(t, i);
            assert(s[k] % 16 == a[k] % 16);
            lemma_swapped_orientation(s[k]);
            lemma_swapped_orientation(a[k]);
        }
    }
}

/// The orientation index of the corners after a turn is what the move table
/// holds for the orientation index before it.
pub proof fn lemma_corner_orientation_follows(c: Corners, t: Twist)
    requires
        c.well_formed(),
        corner_balanced(c.spec_state()),
    ensures
        c.spec_twisted(t).spec_ori_index() == spec_twisted_c_ori(c.spec_ori_index(), t),
{
    let s = c.spec_state();
    let ori = c.spec_ori_index();
    lemma_corners_of_indices(c);
    lemma_orientations_of_index(c);
    let a = Corners::spec_from_index(0, ori);
    lemma_corner_state_of(0, ori);
    assert forall|i: int| 0 <= i < 8 implies #[trigger] s[i] / 16 == a.spec_state()[i] / 16 by {
        assert(corner_orientations_of(ori)[i] == c.spec_orientation(i));
    }
    lemma_turn_by_parts(s, a.spec_state(), t);
    lemma_corners_twisted_state(c, t);
    lemma_corners_twisted_state(a, t);
    let n = c.spec_twisted(t);
    let an = a.spec_twisted(t);
    assert forall|i: int| 0 <= i < 8 implies n.spec_orientation(i) == an.spec_orientation(i) by {
        assert(corner_twisted_state(s, t)[i] / 16 == corner_twisted_state(a.spec_state(), t)[i]
            / 16);
    }
}

/// The permutation index of the corners after a turn is what the move table
/// holds for the permutation index before it.
pub proof fn lemma_corner_permutation_follows(c: Corners, t: Twist)
    requires
        c.well_formed(),
        corner_balanced(c.spec_state()),
    ensures
        c.spec_twisted(t).spec_prm_index() == spec_twisted_c_prm(c.spec_prm_index() as int, t),
{
    let s = c.spec_state();
    let prm = c.spec_prm_index() as int;
    lemma_corners_of_indices(c);
    let b = Corners::spec_from_index(prm, 0);
    lemma_corner_state_of(prm, 0);
    lemma_corner_state_of(prm, c.spec_ori_index());
    assert forall|i: int| 0 <= i < 8 implies #[trigger] s[i] % 16 == b.spec_state()[i] % 16 by {
        assert(corner_state_of(prm, c.spec_ori_index())[i] % 16 == corner_state_of(prm, 0)[i] % 16);
    }
    lemma_turn_by_parts(s, b.spec_state(), t);
    lemma_corners_twisted_state(c, t);
    lemma_corners_twisted_state(b, t);
    let n = c.spec_twisted(t);
    let bn = b.spec_twisted(t);
    assert(n.spec_cubies() =~= bn.spec_cubies()) by {
        assert forall|i: int| 0 <= i < 8 implies n.spec_cubies()[i] == bn.spec_cubies()[i] by {
            assert(corner_twisted_state(s, t)[i] % 16 == corner_twisted_state(b.spec_state(), t)[i]
                % 16);
        }
    }
}

/// Putting the slice cubies of a sequence back at their places among its
/// other cubies gives the sequence.
pub proof fn lemma_interleave_of_parts(p: Seq<u8>)
    requires
        p.len() <= 256,
        forall|i: int| 0 <= i < p.len() ==> (#[trigger] p[i]) < 248,
    ensures
        spec_interleave(
            spec_part(p, false),
            spec_part(p, true),
            spec_slice_places(p),
            spec_part(p, true).len() as int,
        ) == p,
    decreases p.len(),
{
    let low = spec_part(p, false);
    let high = spec_part(p, true);
    let places = spec_slice_places(p);
    lemma_part_len(p);
    if p.len() == 0 {
        assert(low =~= p);
    } else {
        let q = p.drop_last();
        let x = p.last();
        let k = spec_part(q, true).len() as int;
        lemma_interleave_of_parts(q);
        lemma_part_len(q);
        lemma_slice_places(q);
        if x > 7 {
            lemma_interleave_prefix(
                spec_part(q, false),
                spec_part(q, true),
                spec_slice_places(q),
                low,
                high,
                places,
                k,
            );
            assert(q.insert(q.len() as int, x) =~= p);
        } else {
            assert(spec_part(q, false).len() + k == q.len());
            lemma_interleave_push(
                spec_part(q, false),
                spec_part(q, true),
                spec_slice_places(q),
                k,
                x,
                q.len() as int,
            );
            assert(q.push(x) =~= p);
        }
    }
}

/// What is put in depends on the first `k` slice cubies and places alone.
proof fn lemma_interleave_prefix(
    base: Seq<u8>,
    slice: Seq<u8>,
    places: Seq<u8>,
    base2: Seq<u8>,
    slice2: Seq<u8>,
    places2: Seq<u8>,
    k: int,
)
    requires
        base == base2,
        0 <= k <= slice.len(),
        k <= slice2.len(),
        k <= places.len(),
        k <= places2.len(),
        forall|i: int| 0 <= i < k ==> slice[i] == slice2[i] && places[i] == places2[i],
    ensures
        spec_interleave(base, slice, places, k) == spec_interleave(base2, slice2, places2, k),
    decreases k,
{
    if k > 0 {
        lemma_interleave_prefix(base, slice, places, base2, slice2, places2, k - 1);
    }
}

/// A cubie added behind the others stays behind all that is put in, where
/// every place lies within what stands there at its time.
proof fn lemma_interleave_push(base: Seq<u8>, slice: Seq<u8>, places: Seq<u8>, k: int, x: u8, len: int)
    requires
        0 <= k <= slice.len(),
        k <= places.len(),
        len == base.len() + k,
        forall|i: int| 0 <= i < k ==> (#[trigger] places[i] as int) < len,
        forall|a: int, b: int| 0 <= a < b < k ==> places[a] < places[b],
    ensures
        spec_interleave(base.push(x), slice, places, k) == spec_interleave(base, slice, places, k).push(
            x,
        ),
        spec_interleave(base, slice, places, k).len() == base.len() + k,
    decreases k,
{
    if k > 0 {
        assert forall|i: int| 0 <= i < k - 1 implies (#[trigger] places[i] as int) < len - 1 by {
            assert(places[i] < places[k - 1]);
        }
        lemma_interleave_push(base, slice, places, k - 1, x, len - 1);
        let r = spec_interleave(base, slice, places, k - 1);
        let q = places[k - 1] as int;
        let y = (slice[k - 1] + 8) as u8;
        assert(r.push(x).insert(q, y) =~= r.insert(q, y).push(x));
    }
}

/// Whether two sequences have their slice cubies at the same places.
pub open spec fn same_pattern(p: Seq<u8>, q: Seq<u8>) -> bool {
    &&& p.len() == q.len()
    &&& forall|i: int| 0 <= i < p.len() ==> (#[trigger] p[i] > 7) == (q[i] > 7)
}

/// Whether two sequences have the same slice cubies at the same places.
pub open spec fn same_slice(p: Seq<u8>, q: Seq<u8>) -> bool {
    &&& same_pattern(p, q)
    &&& forall|i: int| 0 <= i < p.len() && #[trigger] p[i] > 7 ==> p[i] == q[i]
}

/// Whether two sequences have the same other cubies at the same places.
pub open spec fn same_others(p: Seq<u8>, q: Seq<u8>) -> bool {
    &&& same_pattern(p, q)
    &&& forall|i: int| 0 <= i < p.len() && #[trigger] p[i] <= 7 ==> p[i] == q[i]
}

/// What is put in at the same places stands at the same places, whatever
/// stands between.
#[verifier::rlimit(50)]
pub proof fn lemma_interleave_agree(
    base1: Seq<u8>,
    slice1: Seq<u8>,
    base2: Seq<u8>,
    slice2: Seq<u8>,
    places: Seq<u8>,
    k: int,
)
    requires
        base1.len() == base2.len(),
        forall|i: int| 0 <= i < base1.len() ==> (#[trigger] base1[i]) <= 7,
        forall|i: int| 0 <= i < base2.len() ==> (#[trigger] base2[i]) <= 7,
        0 <= k <= slice1.len(),
        k <= slice2.len(),
        k <= places.len(),
        forall|j: int| 0 <= j < k ==> (#[trigger] slice1[j]) < 248,
        forall|j: int| 0 <= j < k ==> (#[trigger] slice2[j]) < 248,
        forall|j: int| 0 <= j < k ==> (#[trigger] places[j] as int) <= base1.len() + j,
    ensures
        spec_interleave(base1, slice1, places, k).len() == base1.len() + k,
        same_pattern(
            spec_interleave(base1, slice1, places, k),
            spec_interleave(base2, slice2, places, k),
        ),
        base1 == base2 ==> same_others(
            spec_interleave(base1, slice1, places, k),
            spec_interleave(base2, slice2, places, k),
        ),
        (forall|j: int| 0 <= j < k ==> slice1[j] == slice2[j]) ==> same_slice(
            spec_interleave(base1, slice1, places, k),
            spec_interleave(base2, slice2, places, k),
        ),
    decreases k,
{
    if k > 0 {
        lemma_interleave_agree(base1, slice1, base2, slice2, places, k - 1);
        let r1 = spec_interleave(base1, slice1, places, k - 1);
        let r2 = spec_interleave(base2, slice2, places, k - 1);
        let q = places[k - 1] as int;
        let x1 = (slice1[k - 1] + 8) as u8;
        let x2 = (slice2[k - 1] + 8) as u8;
        let n1 = r1.insert(q, x1);
        let n2 = r2.insert(q, x2);
        assert(0 <= q <= r1.len());
        assert(n1.len() == r1.len() + 1 && n2.len() == r2.len() + 1);
        assert forall|i: int| 0 <= i < n1.len() implies n1[i] == (if i < q {
            r1[i]
        } else if i == q {
            x1
        } else {
            r1[i - 1]
        }) && n2[i] == (if i < q {
            r2[i]
        } else if i == q {
            x2
        } else {
            r2[i - 1]
        }) by {}
        assert forall|i: int| 0 <= i < n1.len() implies (#[trigger] n1[i] > 7) == (n2[i] > 7) by {
            if i < q {
                assert((r1[i] > 7) == (r2[i] > 7));
            } else if i > q {
                assert((r1[i - 1] > 7) == (r2[i - 1] > 7));
            }
        }
        if base1 == base2 {
            assert forall|i: int| 0 <= i < n1.len() && #[trigger] n1[i] <= 7 implies n1[i]
                == n2[i] by {
                if i < q {
                    assert(r1[i] <= 7);
                } else if i > q {
                    assert(r1[i - 1] <= 7);
                }
            }
        }
        if forall|j: int| 0 <= j < k ==> slice1[j] == slice2[j] {
            assert forall|i: int| 0 <= i < n1.len() && #[trigger] n1[i] > 7 implies n1[i]
                == n2[i] by {
                if i < q {
                    assert(r1[i] > 7);
                } else if i > q {
                    assert(r1[i - 1] > 7);
                }
            }
        }
    }
}

/// Sequences with their slice cubies at the same places have the same slice
/// places; where they also have the same slice cubies there, their slice
/// parts are the same, and where they have the same other cubies, their other
/// parts are.
pub proof fn lemma_parts_by_agreement(p: Seq<u8>, q: Seq<u8>)
    requires
        same_pattern(p, q),
    ensures
        spec_slice_places(p) == spec_slice_places(q),
        same_slice(p, q) ==> spec_part(p, true) == spec_part(q, true),
        same_others(p, q) ==> spec_part(p, false) == spec_part(q, false),
    decreases p.len(),
{
    if p.len() > 0 {
        let a = p.drop_last();
        let b = q.drop_last();
        assert forall|i: int| 0 <= i < a.len() implies (#[trigger] a[i] > 7) == (b[i] > 7) by {
            assert((p[i] > 7) == (q[i] > 7));
        }
        lemma_parts_by_agreement(a, b);
        assert((p[p.len() - 1] > 7) == (q[p.len() - 1] > 7));
        if same_slice(p, q) {
            assert forall|i: int| 0 <= i < a.len() && #[trigger] a[i] > 7 implies a[i] == b[i] by {
                assert(p[i] > 7);
            }
            if p[p.len() - 1] > 7 {
                assert(p[p.len() - 1] == q[p.len() - 1]);
            }
        }
        if same_others(p, q) {
            assert forall|i: int| 0 <= i < a.len() && #[trigger] a[i] <= 7 implies a[i] == b[i] by {
                assert(p[i] <= 7);
            }
            if p[p.len() - 1] <= 7 {
                assert(p[p.len() - 1] == q[p.len() - 1]);
            }
        }
    }
}

/// The number of flipped cubies among the first `n`.
pub open spec fn spec_flips(o: Seq<u8>, n: int) -> int
    decreases n,
{
    if n <= 0 {
        0
    } else {
        spec_flips(o, n - 1) + if o[n - 1] != 0 {
            1int
        } else {
            0int
        }
    }
}

/// The orientations of the bytes of the edges.
pub open spec fn edge_flips_of(s: Seq<u8>) -> Seq<u8> {
    Seq::new(12, |i: int| s[i] / 16)
}

/// Whether the number of flipped cubies is even, as it is at every state that
/// turns lead to from the solved cube.
pub open spec fn edge_balanced(s: Seq<u8>) -> bool {
    spec_flips(edge_flips_of(s), 12) % 2 == 0
}

proof fn lemma_add_bit(v: u64, e: u64)
    by (bit_vector)
    requires
        e < 11,
        v < (1u64 << e),
    ensures
        v + (1u64 << e) == v | (1u64 << e),
{
}

proof fn lemma_weight_bit(e: u64)
    by (bit_vector)
    requires
        e < 11,
    ensures
        e == 0 ==> (1u64 << e) == 1,
        e == 1 ==> (1u64 << e) == 2,
        e == 2 ==> (1u64 << e) == 4,
        e == 3 ==> (1u64 << e) == 8,
        e == 4 ==> (1u64 << e) == 16,
        e == 5 ==> (1u64 << e) == 32,
        e == 6 ==> (1u64 << e) == 64,
        e == 7 ==> (1u64 << e) == 128,
        e == 8 ==> (1u64 << e) == 256,
        e == 9 ==> (1u64 << e) == 512,
        e == 10 ==> (1u64 << e) == 1024,
{
}

/// The orientation index has a bit for each flipped cubie of the first
/// eleven, and no other.
pub proof fn lemma_ori_value_bits(o: Seq<u8>, n: int)
    requires
        0 <= n <= 11,
        n <= o.len(),
        forall|i: int| 0 <= i < n ==> (#[trigger] o[i]) <= 1,
    ensures
        0 <= spec_ori_value(o, n) < edge_weight(n),
        forall|j: int|
            0 <= j < 64 ==> #[trigger] bit_is_set(spec_ori_value(o, n) as u64, j) == (j < n && o[j]
                != 0),
        forall|k: int|
            0 <= k <= 64 ==> #[trigger] count_set_below(spec_ori_value(o, n) as u64, k) == spec_flips(
                o,
                if k < n {
                    k
                } else {
                    n
                },
            ),
    decreases n,
{
    if n == 0 {
        lemma_zero_has_no_bits();
    } else {
        lemma_ori_value_bits(o, n - 1);
        let v = spec_ori_value(o, n - 1) as u64;
        let w = spec_ori_value(o, n) as u64;
        let e = (n - 1) as u64;
        lemma_weight_bit(e);
        lemma_add_bit(v, e);
        if o[n - 1] != 0 {
            assert(w == v | (1u64 << e));
            lemma_insert_bit(v, n - 1, w);
            assert forall|k: int| 0 <= k <= 64 implies #[trigger] count_set_below(w, k)
                == spec_flips(
                o,
                if k < n {
                    k
                } else {
                    n
                },
            ) by {
                lemma_count_insert_bit(v, n - 1, w, k);
            }
        }
    }
}

proof fn lemma_flips_l1(
    o0: int,
    o1: int,
    o2: int,
    o3: int,
    o4: int,
    o5: int,
    o6: int,
    o7: int,
    o8: int,
    o9: int,
    o10: int,
    o11: int,
)
    ensures
        (o0 + o1 + o2 + o3 + (1 - o11) + o5 + o6 + (1 - o8) + (1 - o4) + o9 + o10 + (1 - o7)) % 2 == (o0 + o1 + o2 + o3 + o4 + o5 + o6 + o7 + o8 + o9 + o10 + o11) % 2,
{
}

proof fn lemma_flips_l2(
    o0: int,
    o1: int,
    o2: int,
    o3: int,
    o4: int,
    o5: int,
    o6: int,
    o7: int,
    o8: int,
    o9: int,
    o10: int,
    o11: int,
)
    ensures
        (o0 + o1 + o2 + o3 + o7 + o5 + o6 + o4 + o11 + o9 + o10 + o8) % 2 == (o0 + o1 + o2 + o3 + o4 + o5 + o6 + o7 + o8 + o9 + o10 + o11) % 2,
{
}

proof fn lemma_flips_l3(
    o0: int,
    o1: int,
    o2: int,
    o3: int,
    o4: int,
    o5: int,
    o6: int,
    o7: int,
    o8: int,
    o9: int,
    o10: int,
    o11: int,
)
    ensures
        (o0 + o1 + o2 + o3 + (1 - o8) + o5 + o6 + (1 - o11) + (1 - o7) + o9 + o10 + (1 - o4)) % 2 == (o0 + o1 + o2 + o3 + o4 + o5 + o6 + o7 + o8 + o9 + o10 + o11) % 2,
{
}

proof fn lemma_flips_r1(
    o0: int,
    o1: int,
    o2: int,
    o3: int,
    o4: int,
    o5: int,
    o6: int,
    o7: int,
    o8: int,
    o9: int,
    o10: int,
    o11: int,
)
    ensures
        (o0 + o1 + o2 + o3 + o4 + (1 - o9) + (1 - o10) + o7 + o8 + (1 - o6) + (1 - o5) + o11) % 2 == (o0 + o1 + o2 + o3 + o4 + o5 + o6 + o7 + o8 + o9 + o10 + o11) % 2,
{
}

proof fn lemma_flips_r2(
    o0: int,
    o1: int,
    o2: int,
    o3: int,
    o4: int,
    o5: int,
    o6: int,
    o7: int,
    o8: int,
    o9: int,
    o10: int,
    o11: int,
)
    ensures
        (o0 + o1 + o2 + o3 + o4 + o6 + o5 + o7 + o8 + o10 + o9 + o11) % 2 == (o0 + o1 + o2 + o3 + o4 + o5 + o6 + o7 + o8 + o9 + o10 + o11) % 2,
{
}

proof fn lemma_flips_r3(
    o0: int,
    o1: int,
    o2: int,
    o3: int,
    o4: int,
    o5: int,
    o6: int,
    o7: int,
    o8: int,
    o9: int,
    o10: int,
    o11: int,
)
    ensures
        (o0 + o1 + o2 + o3 + o4 + (1 - o10) + (1 - o9) + o7 + o8 + (1 - o5) + (1 - o6) + o11) % 2 == (o0 + o1 + o2 + o3 + o4 + o5 + o6 + o7 + o8 + o9 + o10 + o11) % 2,
{
}

proof fn lemma_flips_u1(
    o0: int,
    o1: int,
    o2: int,
    o3: int,
    o4: int,
    o5: int,
    o6: int,
    o7: int,
    o8: int,
    o9: int,
    o10: int,
    o11: int,
)
    ensures
        (o5 + o4 + o2 + o3 + o0 + o1 + o6 + o7 + o8 + o9 + o10 + o11) % 2 == (o0 + o1 + o2 + o3 + o4 + o5 + o6 + o7 + o8 + o9 + o10 + o11) % 2,
{
}

proof fn lemma_flips_u2(
    o0: int,
    o1: int,
    o2: int,
    o3: int,
    o4: int,
    o5: int,
    o6: int,
    o7: int,
    o8: int,
    o9: int,
    o10: int,
    o11: int,
)
    ensures
        (o1 + o0 + o2 + o3 + o5 + o4 + o6 + o7 + o8 + o9 + o10 + o11) % 2 == (o0 + o1 + o2 + o3 + o4 + o5 + o6 + o7 + o8 + o9 + o10 + o11) % 2,
{
}

proof fn lemma_flips_u3(
    o0: int,
    o1: int,
    o2: int,
    o3: int,
    o4: int,
    o5: int,
    o6: int,
    o7: int,
    o8: int,
    o9: int,
    o10: int,
    o11: int,
)
    ensures
        (o4 + o5 + o2 + o3 + o1 + o0 + o6 + o7 + o8 + o9 + o10 + o11) % 2 == (o0 + o1 + o2 + o3 + o4 + o5 + o6 + o7 + o8 + o9 + o10 + o11) % 2,
{
}

proof fn lemma_flips_d1(
    o0: int,
    o1: int,
    o2: int,
    o3: int,
    o4: int,
    o5: int,
    o6: int,
    o7: int,
    o8: int,
    o9: int,
    o10: int,
    o11: int,
)
    ensures
        (o0 + o1 + o6 + o7 + o4 + o5 + o3 + o2 + o8 + o9 + o10 + o11) % 2 == (o0 + o1 + o2 + o3 + o4 + o5 + o6 + o7 + o8 + o9 + o10 + o11) % 2,
{
}

proof fn lemma_flips_d2(
    o0: int,
    o1: int,
    o2: int,
    o3: int,
    o4: int,
    o5: int,
    o6: int,
    o7: int,
    o8: int,
    o9: int,
    o10: int,
    o11: int,
)
    ensures
        (o0 + o1 + o3 + o2 + o4 + o5 + o7 + o6 + o8 + o9 + o10 + o11) % 2 == (o0 + o1 + o2 + o3 + o4 + o5 + o6 + o7 + o8 + o9 + o10 + o11) % 2,
{
}

proof fn lemma_flips_d3(
    o0: int,
    o1: int,
    o2: int,
    o3: int,
    o4: int,
    o5: int,
    o6: int,
    o7: int,
    o8: int,
    o9: int,
    o10: int,
    o11: int,
)
    ensures
        (o0 + o1 + o7 + o6 + o4 + o5 + o2 + o3 + o8 + o9 + o10 + o11) % 2 == (o0 + o1 + o2 + o3 + o4 + o5 + o6 + o7 + o8 + o9 + o10 + o11) % 2,
{
}

proof fn lemma_flips_f1(
    o0: int,
    o1: int,
    o2: int,
    o3: int,
    o4: int,
    o5: int,
    o6: int,
    o7: int,
    o8: int,
    o9: int,
    o10: int,
    o11: int,
)
    ensures
        (o8 + o1 + o2 + o9 + o4 + o5 + o6 + o7 + o3 + o0 + o10 + o11) % 2 == (o0 + o1 + o2 + o3 + o4 + o5 + o6 + o7 + o8 + o9 + o10 + o11) % 2,
{
}

proof fn lemma_flips_f2(
    o0: int,
    o1: int,
    o2: int,
    o3: int,
    o4: int,
    o5: int,
    o6: int,
    o7: int,
    o8: int,
    o9: int,
    o10: int,
    o11: int,
)
    ensures
        (o3 + o1 + o2 + o0 + o4 + o5 + o6 + o7 + o9 + o8 + o10 + o11) % 2 == (o0 + o1 + o2 + o3 + o4 + o5 + o6 + o7 + o8 + o9 + o10 + o11) % 2,
{
}

proof fn lemma_flips_f3(
    o0: int,
    o1: int,
    o2: int,
    o3: int,
    o4: int,
    o5: int,
    o6: int,
    o7: int,
    o8: int,
    o9: int,
    o10: int,
    o11: int,
)
    ensures
        (o9 + o1 + o2 + o8 + o4 + o5 + o6 + o7 + o0 + o3 + o10 + o11) % 2 == (o0 + o1 + o2 + o3 + o4 + o5 + o6 + o7 + o8 + o9 + o10 + o11) % 2,
{
}

proof fn lemma_flips_b1(
    o0: int,
    o1: int,
    o2: int,
    o3: int,
    o4: int,
    o5: int,
    o6: int,
    o7: int,
    o8: int,
    o9: int,
    o10: int,
    o11: int,
)
    ensures
        (o0 + o10 + o11 + o3 + o4 + o5 + o6 + o7 + o8 + o9 + o2 + o1) % 2 == (o0 + o1 + o2 + o3 + o4 + o5 + o6 + o7 + o8 + o9 + o10 + o11) % 2,
{
}

proof fn lemma_flips_b2(
    o0: int,
    o1: int,
    o2: int,
    o3: int,
    o4: int,
    o5: int,
    o6: int,
    o7: int,
    o8: int,
    o9: int,
    o10: int,
    o11: int,
)
    ensures
        (o0 + o2 + o1 + o3 + o4 + o5 + o6 + o7 + o8 + o9 + o11 + o10) % 2 == (o0 + o1 + o2 + o3 + o4 + o5 + o6 + o7 + o8 + o9 + o10 + o11) % 2,
{
}

proof fn lemma_flips_b3(
    o0: int,
    o1: int,
    o2: int,
    o3: int,
    o4: int,
    o5: int,
    o6: int,
    o7: int,
    o8: int,
    o9: int,
    o10: int,
    o11: int,
)
    ensures
        (o0 + o11 + o10 + o3 + o4 + o5 + o6 + o7 + o8 + o9 + o1 + o2) % 2 == (o0 + o1 + o2 + o3 + o4 + o5 + o6 + o7 + o8 + o9 + o10 + o11) % 2,
{
}

proof fn lemma_flips_unfolded(o: Seq<u8>)
    requires
        o.len() == 12,
        forall|i: int| 0 <= i < 12 ==> (#[trigger] o[i]) <= 1,
    ensures
        spec_flips(o, 12) == o[0] + o[1] + o[2] + o[3] + o[4] + o[5] + o[6] + o[7] + o[8] + o[9]
            + o[10] + o[11],
        spec_flips(o, 12) == spec_flips(o, 11) + o[11],
{
    assert(o[0] <= 1 && o[1] <= 1 && o[2] <= 1 && o[3] <= 1 && o[4] <= 1 && o[5] <= 1);
    assert(o[6] <= 1 && o[7] <= 1 && o[8] <= 1 && o[9] <= 1 && o[10] <= 1 && o[11] <= 1);
    assert(spec_flips(o, 0) == 0);
    assert(spec_flips(o, 1) == o[0]);
    assert(spec_flips(o, 2) == spec_flips(o, 1) + o[1]);
    assert(spec_flips(o, 3) == spec_flips(o, 2) + o[2]);
    assert(spec_flips(o, 4) == spec_flips(o, 3) + o[3]);
    assert(spec_flips(o, 5) == spec_flips(o, 4) + o[4]);
    assert(spec_flips(o, 6) == spec_flips(o, 5) + o[5]);
    assert(spec_flips(o, 7) == spec_flips(o, 6) + o[6]);
    assert(spec_flips(o, 8) == spec_flips(o, 7) + o[7]);
    assert(spec_flips(o, 9) == spec_flips(o, 8) + o[8]);
    assert(spec_flips(o, 10) == spec_flips(o, 9) + o[9]);
    assert(spec_flips(o, 11) == spec_flips(o, 10) + o[10]);
    assert(spec_flips(o, 12) == spec_flips(o, 11) + o[11]);
}

/// A turn leaves the number of flipped cubies even.
pub proof fn lemma_turn_keeps_flips_even(s: Seq<u8>, t: Twist)
    requires
        edge_state_ok(s),
        edge_balanced(s),
    ensures
        edge_balanced(edge_twisted_state(s, t)),
{
    let n = edge_twisted_state(s, t);
    let o = edge_flips_of(s);
    let m = edge_flips_of(n);
    assert forall|i: int| 0 <= i < 12 implies (#[trigger] o[i]) <= 1 by {
        assert(s[i] < 32);
    }
    assert forall|i: int| 0 <= i < 12 implies (#[trigger] m[i]) <= 1 && m[i] as int == (
    if t.spec_quarter_turns() != 2 && t.spec_face() < 2 && edge_on_face(t.spec_face(), i) {
        1 - o[edge_source(t, i)]
    } else {
        o[edge_source(t, i)] as int
    }) by {
        let k = edge_source(t, i);
        assert(s[k] < 32);
        assert(o[k] == s[k] / 16);
    }
    lemma_flips_unfolded(o);
    lemma_flips_unfolded(m);
    assert(m[0] <= 1 && m[1] <= 1 && m[2] <= 1 && m[3] <= 1 && m[4] <= 1 && m[5] <= 1);
    assert(m[6] <= 1 && m[7] <= 1 && m[8] <= 1 && m[9] <= 1 && m[10] <= 1 && m[11] <= 1);
    let o0 = o[0] as int;
    let o1 = o[1] as int;
    let o2 = o[2] as int;
    let o3 = o[3] as int;
    let o4 = o[4] as int;
    let o5 = o[5] as int;
    let o6 = o[6] as int;
    let o7 = o[7] as int;
    let o8 = o[8] as int;
    let o9 = o[9] as int;
    let o10 = o[10] as int;
    let o11 = o[11] as int;
    match t {
        Twist::L1 => lemma_flips_l1(o0, o1, o2, o3, o4, o5, o6, o7, o8, o9, o10, o11),
        Twist::L2 => lemma_flips_l2(o0, o1, o2, o3, o4, o5, o6, o7, o8, o9, o10, o11),
        Twist::L3 => lemma_flips_l3(o0, o1, o2, o3, o4, o5, o6, o7, o8, o9, o10, o11),
        Twist::R1 => lemma_flips_r1(o0, o1, o2, o3, o4, o5, o6, o7, o8, o9, o10, o11),
        Twist::R2 => lemma_flips_r2(o0, o1, o2, o3, o4, o5, o6, o7, o8, o9, o10, o11),
        Twist::R3 => lemma_flips_r3(o0, o1, o2, o3, o4, o5, o6, o7, o8, o9, o10, o11),
        Twist::U1 => lemma_flips_u1(o0, o1, o2, o3, o4, o5, o6, o7, o8, o9, o10, o11),
        Twist::U2 => lemma_flips_u2(o0, o1, o2, o3, o4, o5, o6, o7, o8, o9, o10, o11),
        Twist::U3 => lemma_flips_u3(o0, o1, o2, o3, o4, o5, o6, o7, o8, o9, o10, o11),
        Twist::D1 => lemma_flips_d1(o0, o1, o2, o3, o4, o5, o6, o7, o8, o9, o10, o11),
        Twist::D2 => lemma_flips_d2(o0, o1, o2, o3, o4, o5, o6, o7, o8, o9, o10, o11),
        Twist::D3 => lemma_flips_d3(o0, o1, o2, o3, o4, o5, o6, o7, o8, o9, o10, o11),
        Twist::F1 => lemma_flips_f1(o0, o1, o2, o3, o4, o5, o6, o7, o8, o9, o10, o11),
        Twist::F2 => lemma_flips_f2(o0, o1, o2, o3, o4, o5, o6, o7, o8, o9, o10, o11),
        Twist::F3 => lemma_flips_f3(o0, o1, o2, o3, o4, o5, o6, o7, o8, o9, o10, o11),
        Twist::B1 => lemma_flips_b1(o0, o1, o2, o3, o4, o5, o6, o7, o8, o9, o10, o11),
        Twist::B2 => lemma_flips_b2(o0, o1, o2, o3, o4, o5, o6, o7, o8, o9, o10, o11),
        Twist::B3 => lemma_flips_b3(o0, o1, o2, o3, o4, o5, o6, o7, o8, o9, o10, o11),
    }
}

/// The orientations that the orientation index of edges with an even number
/// of flipped cubies stands for are the orientations of the edges.
pub proof fn lemma_flips_of_index(e: Edges)
    requires
        e.well_formed(),
        edge_balanced(e.spec_state()),
    ensures
        0 <= e.spec_ori_index() < 2048,
        edge_orientations_of(e.spec_ori_index()) == e.spec_orientations(),
{
    let s = e.spec_state();
    let o = e.spec_orientations();
    let ori = e.spec_ori_index();
    assert(o =~= edge_flips_of(s));
    assert forall|i: int| 0 <= i < 12 implies (#[trigger] o[i]) <= 1 by {
        assert(s[i] < 32);
    }
    lemma_ori_value_bits(o, 11);
    lemma_flips_unfolded(o);
    let want = edge_orientations_of(ori);
    assert forall|i: int| 0 <= i < 12 implies want[i] == o[i] by {
        if i < 11 {
            assert(bit_is_set(ori as u64, i) == (o[i] != 0));
        } else {
            assert(count_set_below(ori as u64, 64) == spec_flips(o, 11));
        }
    }
    assert(want =~= o);
}

/// The cubies of well-formed edges are the cubies that their three indices of
/// permutations and places stand for.
pub proof fn lemma_cubies_of_indices(e: Edges)
    requires
        e.well_formed(),
    ensures
        e.spec_slice_prm_index() < 24,
        e.spec_non_slice_prm_index() < 40320,
        e.spec_slice_loc_index() < 495,
        spec_nth_permutation(e.spec_slice_prm_index(), 4) == spec_part(e.spec_cubies(), true),
        spec_nth_permutation(e.spec_non_slice_prm_index(), 8) == spec_part(e.spec_cubies(), false),
        spec_nth_combination(12, 4, e.spec_slice_loc_index()) == spec_slice_places(e.spec_cubies()),
        edge_cubies_of(
            e.spec_slice_prm_index() as int,
            e.spec_non_slice_prm_index() as int,
            e.spec_slice_loc_index() as int,
        ) == e.spec_cubies(),
{
    let p = e.spec_cubies();
    e.lemma_cubies_permutation();
    lemma_parts_of_permutation(p);
    let low = spec_part(p, false);
    let high = spec_part(p, true);
    let places = spec_slice_places(p);
    lemma_permutation_index_bound(low);
    lemma_permutation_index_bound(high);
    lemma_factorial_table(8);
    lemma_factorial_table(4);
    lemma_pascal_table(12, 4);
    lemma_combination_rank_bound(12, places, 0);
    lemma_permutation_of_rank(low);
    lemma_permutation_of_rank(high);
    lemma_combination_of_rank(12, places);
    assert forall|i: int| 0 <= i < p.len() implies (#[trigger] p[i]) < 248 by {
        assert((p[i] as int) < p.len());
    }
    lemma_interleave_of_parts(p);
}

/// Well-formed edges with an even number of flipped cubies are the edges that
/// their four indices stand for.
#[verifier::rlimit(50)]
pub proof fn lemma_edges_of_indices(e: Edges)
    requires
        e.well_formed(),
        edge_balanced(e.spec_state()),
    ensures
        e.spec_slice_prm_index() < 24,
        e.spec_non_slice_prm_index() < 40320,
        e.spec_slice_loc_index() < 495,
        0 <= e.spec_ori_index() < 2048,
        Edges::spec_from_index(
            e.spec_slice_prm_index() as int,
            e.spec_non_slice_prm_index() as int,
            e.spec_slice_loc_index() as int,
            e.spec_ori_index(),
        ) == e,
{
    let s = e.spec_state();
    let sp = e.spec_slice_prm_index() as int;
    let nsp = e.spec_non_slice_prm_index() as int;
    let loc = e.spec_slice_loc_index() as int;
    let ori = e.spec_ori_index();
    lemma_cubies_of_indices(e);
    lemma_flips_of_index(e);
    lemma_edge_state_of(sp, nsp, loc, ori);
    let want = edge_state_of(sp, nsp, loc, ori);
    assert forall|i: int| 0 <= i < 12 implies want[i] == s[i] by {
        assert(want[i] % 16 == e.spec_cubies()[i]);
        assert(want[i] / 16 == e.spec_orientations()[i]);
        assert(s[i] < 32);
    }
    assert(want =~= s);
    lemma_edges_equal(Edges::spec_from_index(sp, nsp, loc, ori), e);
}

/// A turn leaves the slice cubies of two sequences at the same places, and
/// the same cubies at the same places.
proof fn lemma_turn_keeps_agreement(p: Seq<u8>, q: Seq<u8>, t: Twist)
    requires
        p.len() == 12,
        same_pattern(p, q),
    ensures
        same_pattern(edge_cubies_after(p, t), edge_cubies_after(q, t)),
        same_slice(p, q) ==> same_slice(edge_cubies_after(p, t), edge_cubies_after(q, t)),
        same_others(p, q) ==> same_others(edge_cubies_after(p, t), edge_cubies_after(q, t)),
{
    let a = edge_cubies_after(p, t);
    let b = edge_cubies_after(q, t);
    assert forall|i: int| 0 <= i < 12 implies (#[trigger] a[i] > 7) == (b[i] > 7) by {
        let k = edge_source(t, i);
        assert((p[k] > 7) == (q[k] > 7));
    }
    if same_slice(p, q) {
        assert forall|i: int| 0 <= i < 12 && #[trigger] a[i] > 7 implies a[i] == b[i] by {
            let k = edge_source(t, i);
            assert(p[k] > 7);
        }
    }
    if same_others(p, q) {
        assert forall|i: int| 0 <= i < 12 && #[trigger] a[i] <= 7 implies a[i] == b[i] by {
            let k = edge_source(t, i);
            assert(p[k] <= 7);
        }
    }
}

/// The cubies that indices stand for have their slice cubies at the places
/// that the index of the places stands for, and agree with the cubies of `e`
/// as far as the indices are those of `e`.
#[verifier::rlimit(50)]
proof fn lemma_cubies_agree(e: Edges, slice_prm: int, non_slice_prm: int)
    requires
        e.well_formed(),
        0 <= slice_prm < 24,
        0 <= non_slice_prm < 40320,
    ensures
        edge_cubies_of(slice_prm, non_slice_prm, e.spec_slice_loc_index() as int).len() == 12,
        same_pattern(
            edge_cubies_of(slice_prm, non_slice_prm, e.spec_slice_loc_index() as int),
            e.spec_cubies(),
        ),
        slice_prm == e.spec_slice_prm_index() ==> same_slice(
            edge_cubies_of(slice_prm, non_slice_prm, e.spec_slice_loc_index() as int),
            e.spec_cubies(),
        ),
        non_slice_prm == e.spec_non_slice_prm_index() ==> same_others(
            edge_cubies_of(slice_prm, non_slice_prm, e.spec_slice_loc_index() as int),
            e.spec_cubies(),
        ),
{
    let p = e.spec_cubies();
    lemma_cubies_of_indices(e);
    e.lemma_cubies_permutation();
    lemma_parts_of_permutation(p);
    let low = spec_part(p, false);
    let high = spec_part(p, true);
    let places = spec_slice_places(p);
    let base = spec_nth_permutation(non_slice_prm as nat, 8);
    let inner = spec_nth_permutation(slice_prm as nat, 4);
    lemma_factorial_table(8);
    lemma_factorial_table(4);
    lemma_nth_permutation(non_slice_prm as nat, 8);
    lemma_nth_permutation(slice_prm as nat, 4);
    assert(places[0] < places[1] && places[1] < places[2] && places[2] < places[3]);
    assert(places[3] < 12);
    lemma_interleave_agree(base, inner, low, high, places, 4);
}

/// The orientation index of the edges after a turn is what the move table
/// holds for the orientation index before it.
pub proof fn lemma_edge_orientation_follows(e: Edges, t: Twist)
    requires
        e.well_formed(),
        edge_balanced(e.spec_state()),
    ensures
        e.spec_twisted(t).spec_ori_index() == spec_twisted_e_ori(e.spec_ori_index(), t),
{
    let s = e.spec_state();
    let ori = e.spec_ori_index();
    lemma_flips_of_index(e);
    let a = Edges::spec_from_index(0, 0, 0, ori);
    lemma_edge_state_of(0, 0, 0, ori);
    lemma_edges_twisted_state(e, t);
    lemma_edges_twisted_state(a, t);
    let n = e.spec_twisted(t);
    let an = a.spec_twisted(t);
    assert(n.spec_orientations() =~= an.spec_orientations()) by {
        assert forall|i: int| 0 <= i < 12 implies n.spec_orientations()[i]
            == an.spec_orientations()[i] by {
            let k = edge_source(t, i);
            assert(a.spec_state()[k] / 16 == edge_orientations_of(ori)[k]);
            assert(e.spec_orientations()[k] == s[k] / 16);
            assert(a.spec_state()[k] < 32 && s[k] < 32);
        }
    }
}

/// The index of the places of the slice cubies after a turn is what the move
/// table holds for the index before it.
pub proof fn lemma_edge_slice_places_follow(e: Edges, t: Twist)
    requires
        e.well_formed(),
    ensures
        e.spec_twisted(t).spec_slice_loc_index() == spec_twisted_e_slice_loc(
            e.spec_slice_loc_index() as int,
            t,
        ),
{
    let loc = e.spec_slice_loc_index() as int;
    lemma_cubies_of_indices(e);
    lemma_cubies_agree(e, 0, 0);
    let a = Edges::spec_from_index(0, 0, loc, 0);
    lemma_edge_state_of(0, 0, loc, 0);
    assert(a.spec_cubies() =~= edge_cubies_of(0, 0, loc));
    lemma_edge_cubies_after(e, t);
    lemma_edge_cubies_after(a, t);
    lemma_turn_keeps_agreement(a.spec_cubies(), e.spec_cubies(), t);
    lemma_parts_by_agreement(a.spec_twisted(t).spec_cubies(), e.spec_twisted(t).spec_cubies());
}

/// The index of the permutation of the slice cubies after a turn is what the
/// move table holds for the index and the index of the places before it.
pub proof fn lemma_edge_slice_permutation_follows(e: Edges, t: Twist)
    requires
        e.well_formed(),
    ensures
        e.spec_twisted(t).spec_slice_prm_index() == spec_twisted_e_slice_prm(
            e.spec_slice_prm_index() as int,
            e.spec_slice_loc_index() as int,
            t,
        ),
{
    let loc = e.spec_slice_loc_index() as int;
    let sp = e.spec_slice_prm_index() as int;
    lemma_cubies_of_indices(e);
    lemma_cubies_agree(e, sp, 0);
    let a = Edges::spec_from_index(sp, 0, loc, 0);
    lemma_edge_state_of(sp, 0, loc, 0);
    assert(a.spec_cubies() =~= edge_cubies_of(sp, 0, loc));
    lemma_edge_cubies_after(e, t);
    lemma_edge_cubies_after(a, t);
    lemma_turn_keeps_agreement(a.spec_cubies(), e.spec_cubies(), t);
    lemma_parts_by_agreement(a.spec_twisted(t).spec_cubies(), e.spec_twisted(t).spec_cubies());
}

/// The index of the permutation of the cubies outside the slice after a turn
/// is what the move table holds for the index and the index of the places of
/// the slice cubies before it.
pub proof fn lemma_edge_other_permutation_follows(e: Edges, t: Twist)
    requires
        e.well_formed(),
    ensures
        e.spec_twisted(t).spec_non_slice_prm_index() == spec_twisted_e_non_slice_prm(
            e.spec_non_slice_prm_index() as int,
            e.spec_slice_loc_index() as int,
            t,
        ),
{
    let loc = e.spec_slice_loc_index() as int;
    let nsp = e.spec_non_slice_prm_index() as int;
    lemma_cubies_of_indices(e);
    lemma_cubies_agree(e, 0, nsp);
    let a = Edges::spec_from_index(0, nsp, loc, 0);
    lemma_edge_state_of(0, nsp, loc, 0);
    assert(a.spec_cubies() =~= edge_cubies_of(0, nsp, loc));
    lemma_edge_cubies_after(e, t);
    lemma_edge_cubies_after(a, t);
    lemma_turn_keeps_agreement(a.spec_cubies(), e.spec_cubies(), t);
    lemma_parts_by_agreement(a.spec_twisted(t).spec_cubies(), e.spec_twisted(t).spec_cubies());
}

/// The six coordinates of the cube whose cubies are `c` and `e`.
pub open spec fn spec_cube_of(c: Corners, e: Edges) -> Cube {
    Cube {
        c_prm: c.spec_prm_index() as u16,
        c_ori: c.spec_ori_index() as u16,
        e_non_slice_prm: e.spec_non_slice_prm_index() as u16,
        e_slice_prm: e.spec_slice_prm_index() as u8,
        e_slice_loc: e.spec_slice_loc_index() as u16,
        e_ori: e.spec_ori_index() as u16,
    }
}

/// Whether the cubies are well formed and their orientations are such as
/// turns lead to from the solved cube.
pub open spec fn cubies_balanced(c: Corners, e: Edges) -> bool {
    &&& c.well_formed()
    &&& e.well_formed()
    &&& corner_balanced(c.spec_state())
    &&& edge_balanced(e.spec_state())
}

/// The coordinates of the cube after a turn of its cubies are what the move
/// tables give for the coordinates before it.
#[verifier::rlimit(50)]
pub proof fn lemma_cube_follows_cubies(c: Corners, e: Edges, t: Twist)
    requires
        cubies_balanced(c, e),
    ensures
        cubies_balanced(c.spec_twisted(t), e.spec_twisted(t)),
        spec_cube_of(c, e).well_formed(),
        spec_cube_of(c.spec_twisted(t), e.spec_twisted(t)) == spec_cube_of(c, e).spec_twisted(t),
{
    lemma_corners_of_indices(c);
    lemma_edges_of_indices(e);
    lemma_corners_twisted_state(c, t);
    lemma_edges_twisted_state(e, t);
    crate::corners::lemma_twisted_state_ok(c.spec_state(), t);
    crate::edges::lemma_twisted_state_ok(e.spec_state(), t);
    lemma_turn_keeps_balance(c.spec_state(), t);
    lemma_turn_keeps_flips_even(e.spec_state(), t);
    lemma_corner_orientation_follows(c, t);
    lemma_corner_permutation_follows(c, t);
    lemma_edge_orientation_follows(e, t);
    lemma_edge_slice_places_follow(e, t);
    lemma_edge_slice_permutation_follows(e, t);
    lemma_edge_other_permutation_follows(e, t);
}

/// The coordinates of the cube after turns of its cubies are what the move
/// tables give, turn by turn, for the coordinates before them.
pub proof fn lemma_cube_follows_turns(c: Corners, e: Edges, twists: Seq<Twist>)
    requires
        cubies_balanced(c, e),
    ensures
        cubies_balanced(corners_twisted_by(c, twists), edges_twisted_by(e, twists)),
        spec_cube_of(corners_twisted_by(c, twists), edges_twisted_by(e, twists)) == spec_cube_of(
            c,
            e,
        ).spec_twisted_by(twists),
    decreases twists.len(),
{
    if twists.len() == 0 {
        assert(spec_cube_of(c, e).spec_twisted_by(twists) == spec_cube_of(c, e));
    } else {
        let before = twists.drop_last();
        let t = twists.last();
        lemma_cube_follows_turns(c, e, before);
        lemma_cube_follows_cubies(
            corners_twisted_by(c, before),
            edges_twisted_by(e, before),
            t,
        );
        lemma_twisted_by_one_more(spec_cube_of(c, e), before, t);
        assert(before.push(t) =~= twists);
    }
}

/// The solved cubies have the coordinates of the solved cube, and balanced
/// cubies with the coordinates of the solved cube are the solved cubies.
pub proof fn lemma_solved_coordinates(c: Corners, e: Edges, solved_c: Corners, solved_e: Edges)
    requires
        cubies_balanced(c, e),
        solved_c.spec_state() == seq![0u8, 1u8, 2u8, 3u8, 4u8, 5u8, 6u8, 7u8],
        solved_e.spec_state() == seq![0u8, 1u8, 2u8, 3u8, 4u8, 5u8, 6u8, 7u8, 8u8, 9u8, 10u8, 11u8],
    ensures
        cubies_balanced(solved_c, solved_e),
        spec_cube_of(solved_c, solved_e) == Cube::spec_solved(),
        spec_cube_of(c, e) == Cube::spec_solved() <==> c == solved_c && e == solved_e,
{
    lemma_solved_corners(solved_c);
    lemma_solved_edges(solved_e);
    assert(corner_balanced(solved_c.spec_state()));
    assert(edge_balanced(solved_e.spec_state())) by {
        let o = edge_flips_of(solved_e.spec_state());
        lemma_flips_unfolded(o);
    }
    lemma_corners_of_indices(c);
    lemma_edges_of_indices(e);
    lemma_corners_of_indices(solved_c);
    lemma_edges_of_indices(solved_e);
}

/// A sequence of turns that takes the coordinates of balanced cubies to those
/// of the solved cube takes the cubies to the solved cubies.
pub proof fn lemma_solution_solves_the_cubies(
    c: Corners,
    e: Edges,
    solution: Seq<Twist>,
    solved_c: Corners,
    solved_e: Edges,
)
    requires
        cubies_balanced(c, e),
        spec_cube_of(c, e).spec_twisted_by(solution) == Cube::spec_solved(),
        solved_c.spec_state() == seq![0u8, 1u8, 2u8, 3u8, 4u8, 5u8, 6u8, 7u8],
        solved_e.spec_state() == seq![0u8, 1u8, 2u8, 3u8, 4u8, 5u8, 6u8, 7u8, 8u8, 9u8, 10u8, 11u8],
    ensures
        corners_twisted_by(c, solution) == solved_c,
        edges_twisted_by(e, solution) == solved_e,
{
    lemma_cube_follows_turns(c, e, solution);
    lemma_solved_coordinates(
        corners_twisted_by(c, solution),
        edges_twisted_by(e, solution),
        solved_c,
        solved_e,
    );
}

/// Whether `i` is one of the first `k` places.
pub open spec fn is_place(places: Seq<u8>, k: int, i: int) -> bool {
    exists|j: int| 0 <= j < k && places[j] as int == i
}

/// After the slice cubies are put in, they stand at their places, each at
/// its own, and nowhere else.
pub proof fn lemma_interleave_pattern(base: Seq<u8>, slice: Seq<u8>, places: Seq<u8>, k: int)
    requires
        forall|i: int| 0 <= i < base.len() ==> (#[trigger] base[i]) <= 7,
        0 <= k <= slice.len(),
        k <= places.len(),
        forall|j: int| 0 <= j < k ==> (#[trigger] slice[j]) < 248,
        forall|j: int| 0 <= j < k ==> (#[trigger] places[j] as int) <= base.len() + j,
        forall|a: int, b: int| 0 <= a < b < k ==> places[a] < places[b],
    ensures
        spec_interleave(base, slice, places, k).len() == base.len() + k,
        forall|i: int|
            0 <= i < base.len() + k ==> (#[trigger] spec_interleave(base, slice, places, k)[i] > 7)
                == is_place(places, k, i),
        forall|j: int|
            0 <= j < k ==> spec_interleave(base, slice, places, k)[#[trigger] places[j] as int]
                == slice[j] + 8,
    decreases k,
{
    if k > 0 {
        lemma_interleave_pattern(base, slice, places, k - 1);
        let r = spec_interleave(base, slice, places, k - 1);
        let q = places[k - 1] as int;
        let x = (slice[k - 1] + 8) as u8;
        let n = r.insert(q, x);
        assert(0 <= q <= r.len());
        assert forall|i: int| 0 <= i < n.len() implies n[i] == (if i < q {
            r[i]
        } else if i == q {
            x
        } else {
            r[i - 1]
        }) by {}
        assert forall|i: int| 0 <= i < base.len() + k implies (#[trigger] n[i] > 7) == is_place(
            places,
            k,
            i,
        ) by {
            if i < q {
                assert((r[i] > 7) == is_place(places, k - 1, i));
                if is_place(places, k, i) {
                    let j = choose|j: int| 0 <= j < k && places[j] as int == i;
                    assert(0 <= j < k - 1 && places[j] as int == i);
                }
                if is_place(places, k - 1, i) {
                    let j = choose|j: int| 0 <= j < k - 1 && places[j] as int == i;
                    assert(0 <= j < k && places[j] as int == i);
                }
            } else if i == q {
                assert(places[k - 1] as int == i);
            } else {
                assert((r[i - 1] > 7) == is_place(places, k - 1, i - 1));
                if is_place(places, k - 1, i - 1) {
                    let j = choose|j: int| 0 <= j < k - 1 && places[j] as int == i - 1;
                    assert(places[j] < places[k - 1]);
                }
                if is_place(places, k, i) {
                    let j = choose|j: int| 0 <= j < k && places[j] as int == i;
                    if j < k - 1 {
                        assert(places[j] < places[k - 1]);
                    }
                }
            }
        }
        assert forall|j: int| 0 <= j < k implies n[#[trigger] places[j] as int] == slice[j] + 8 by {
            if j < k - 1 {
                assert(places[j] < places[k - 1]);
                assert(r[places[j] as int] == slice[j] + 8);
            }
        }
    }
}

proof fn lemma_part_concat(a: Seq<u8>, b: Seq<u8>, slice: bool)
    ensures
        spec_part(a + b, slice) == spec_part(a, slice) + spec_part(b, slice),
    decreases b.len(),
{
    if b.len() == 0 {
        assert(a + b =~= a);
        assert(spec_part(a, slice) + spec_part(b, slice) =~= spec_part(a, slice));
    } else {
        assert((a + b).drop_last() =~= a + b.drop_last());
        lemma_part_concat(a, b.drop_last(), slice);
        let r = spec_part(a, slice) + spec_part(b.drop_last(), slice);
        if slice && b.last() > 7 {
            assert(r.push((b.last() - 8) as u8) =~= spec_part(a, slice) + spec_part(
                b.drop_last(),
                slice,
            ).push((b.last() - 8) as u8));
        } else if !slice && b.last() <= 7 {
            assert(r.push(b.last()) =~= spec_part(a, slice) + spec_part(b.drop_last(), slice).push(
                b.last(),
            ));
        }
    }
}

/// The cubies outside the slice are, in their order, those between which the
/// slice cubies were put.
pub proof fn lemma_others_of_interleave(base: Seq<u8>, slice: Seq<u8>, places: Seq<u8>, k: int)
    requires
        forall|i: int| 0 <= i < base.len() ==> (#[trigger] base[i]) <= 7,
        0 <= k <= slice.len(),
        k <= places.len(),
        forall|j: int| 0 <= j < k ==> (#[trigger] slice[j]) < 248,
        forall|j: int| 0 <= j < k ==> (#[trigger] places[j] as int) <= base.len() + j,
        forall|a: int, b: int| 0 <= a < b < k ==> places[a] < places[b],
    ensures
        spec_part(spec_interleave(base, slice, places, k), false) == base,
    decreases k,
{
    if k == 0 {
        lemma_part_of_others(base);
    } else {
        lemma_others_of_interleave(base, slice, places, k - 1);
        lemma_interleave_pattern(base, slice, places, k - 1);
        let r = spec_interleave(base, slice, places, k - 1);
        let q = places[k - 1] as int;
        let x = (slice[k - 1] + 8) as u8;
        assert(r.insert(q, x) =~= r.take(q).push(x) + r.skip(q));
        assert(r =~= r.take(q) + r.skip(q));
        lemma_part_concat(r.take(q).push(x), r.skip(q), false);
        lemma_part_concat(r.take(q), r.skip(q), false);
        assert(r.take(q).push(x).drop_last() =~= r.take(q));
    }
}

proof fn lemma_part_of_others(base: Seq<u8>)
    requires
        forall|i: int| 0 <= i < base.len() ==> (#[trigger] base[i]) <= 7,
    ensures
        spec_part(base, false) == base,
    decreases base.len(),
{
    if base.len() > 0 {
        lemma_part_of_others(base.drop_last());
        assert(base.drop_last().push(base.last()) =~= base);
    } else {
        assert(spec_part(base, false) =~= base);
    }
}

/// A sequence whose slice cubies stand at the places `places`, each at its
/// own, has these places as its slice places and these cubies as its slice
/// part.
pub proof fn lemma_slice_by_pattern(p: Seq<u8>, slice: Seq<u8>, places: Seq<u8>, k: int)
    requires
        p.len() <= 256,
        0 <= k <= slice.len(),
        k <= places.len(),
        forall|j: int| 0 <= j < k ==> (#[trigger] slice[j]) < 248,
        forall|j: int| 0 <= j < k ==> (#[trigger] places[j] as int) < p.len(),
        forall|a: int, b: int| 0 <= a < b < k ==> places[a] < places[b],
        forall|i: int| 0 <= i < p.len() ==> (#[trigger] p[i] > 7) == is_place(places, k, i),
        forall|j: int| 0 <= j < k ==> p[#[trigger] places[j] as int] == slice[j] + 8,
    ensures
        spec_slice_places(p) == places.take(k),
        spec_part(p, true) == slice.take(k),
    decreases p.len(),
{
    if p.len() == 0 {
        if k > 0 {
            assert((places[0] as int) < p.len());
        }
        assert(places.take(k) =~= Seq::<u8>::empty());
        assert(slice.take(k) =~= Seq::<u8>::empty());
    } else {
        let n = p.len() - 1;
        let q = p.drop_last();
        if p[n] > 7 {
            assert(is_place(places, k, n));
            let j = choose|j: int| 0 <= j < k && places[j] as int == n;
            if j < k - 1 {
                assert(places[j] < places[k - 1]);
            }
            assert(j == k - 1);
            assert forall|i: int| 0 <= i < q.len() implies (#[trigger] q[i] > 7) == is_place(
                places,
                k - 1,
                i,
            ) by {
                assert((p[i] > 7) == is_place(places, k, i));
                if is_place(places, k, i) {
                    let w = choose|w: int| 0 <= w < k && places[w] as int == i;
                    assert(0 <= w < k - 1 && places[w] as int == i);
                }
                if is_place(places, k - 1, i) {
                    let w = choose|w: int| 0 <= w < k - 1 && places[w] as int == i;
                    assert(0 <= w < k && places[w] as int == i);
                }
            }
            assert forall|w: int| 0 <= w < k - 1 implies (#[trigger] places[w] as int)
                < q.len() by {
                assert(places[w] < places[k - 1]);
            }
            assert forall|w: int| 0 <= w < k - 1 implies q[#[trigger] places[w] as int] == slice[w]
                + 8 by {
                assert(places[w] < places[k - 1]);
                assert(p[places[w] as int] == slice[w] + 8);
            }
            lemma_slice_by_pattern(q, slice, places, k - 1);
            assert(places.take(k - 1).push(n as u8) =~= places.take(k));
            assert(slice.take(k - 1).push((p[n] - 8) as u8) =~= slice.take(k));
        } else {
            assert(!is_place(places, k, n));
            assert forall|i: int| 0 <= i < q.len() implies (#[trigger] q[i] > 7) == is_place(
                places,
                k,
                i,
            ) by {
                assert((p[i] > 7) == is_place(places, k, i));
            }
            assert forall|w: int| 0 <= w < k implies (#[trigger] places[w] as int) < q.len() by {
                if places[w] as int == n {
                    assert(is_place(places, k, n));
                }
            }
            assert forall|w: int| 0 <= w < k implies q[#[trigger] places[w] as int] == slice[w]
                + 8 by {
                if places[w] as int == n {
                    assert(is_place(places, k, n));
                }
                assert(p[places[w] as int] == slice[w] + 8);
            }
            lemma_slice_by_pattern(q, slice, places, k);
        }
    }
}

proof fn lemma_low_bits(x: u64, n: u64)
    by (bit_vector)
    requires
        n < 11,
    ensures
        (x & (((1u64 << ((n + 1) as u64)) - 1) as u64)) == (x & (((1u64 << n) - 1) as u64)) + (if (x
            >> n) & 1 == 1 {
            1u64 << n
        } else {
            0u64
        }),
        (x & (((1u64 << n) - 1) as u64)) < (1u64 << n),
        x < 2048 ==> x & 2047 == x,
        n == 0 ==> x & (((1u64 << n) - 1) as u64) == 0,
        n == 10 ==> (((1u64 << ((n + 1) as u64)) - 1) as u64) == 2047,
{
}

/// The orientations that an index stands for, one by one: what its bits say,
/// and a twelfth that tells whether the number of its bits is odd.
proof fn lemma_flips_one_by_one(ori: int)
    ensures
        edge_orientations_of(ori).len() == 12,
        forall|i: int|
            0 <= i < 11 ==> #[trigger] edge_orientations_of(ori)[i] == (if bit_is_set(ori as u64, i) {
                1u8
            } else {
                0u8
            }),
        edge_orientations_of(ori)[11] == (count_set_below(ori as u64, 64) % 2) as u8,
{
}

/// The bits of a number below 2048 are the orientations that it stands for,
/// and these make the number.
#[verifier::rlimit(100)]
pub proof fn lemma_index_of_flips(ori: int)
    requires
        0 <= ori < 2048,
    ensures
        edge_orientations_of(ori).len() == 12,
        forall|i: int| 0 <= i < 12 ==> (#[trigger] edge_orientations_of(ori)[i]) <= 1,
        spec_ori_value(edge_orientations_of(ori), 11) == ori,
        spec_flips(edge_orientations_of(ori), 12) % 2 == 0,
{
    let o = edge_orientations_of(ori);
    let x = ori as u64;
    lemma_flips_one_by_one(ori);
    assert forall|i: int| 0 <= i < 12 implies (#[trigger] o[i]) <= 1 by {
        if i == 11 {
            assert(o[11] == (count_set_below(x, 64) % 2) as u8);
        }
    }
    assert forall|i: int| 0 <= i < 11 implies (#[trigger] o[i] != 0) == bit_is_set(x, i) by {}
    lemma_low_part_of_index(x, o, 11);
    lemma_low_bits(x, 10);
    lemma_ori_value_bits(o, 11);
    lemma_flips_unfolded(o);
    lemma_even_with_the_twelfth(spec_flips(o, 11), count_set_below(x, 64) as int, o[11] as int);
}

proof fn lemma_even_with_the_twelfth(flips: int, bits: int, last: int)
    requires
        flips == bits,
        bits >= 0,
        last == bits % 2,
    ensures
        (flips + last) % 2 == 0,
{
}

proof fn lemma_low_part_of_index(x: u64, o: Seq<u8>, n: int)
    requires
        0 <= n <= 11,
        o.len() == 12,
        forall|i: int| 0 <= i < 11 ==> (#[trigger] o[i] != 0) == bit_is_set(x, i),
    ensures
        spec_ori_value(o, n) == (x & (((1u64 << (n as u64)) - 1) as u64)),
    decreases n,
{
    if n == 0 {
        lemma_low_bits(x, 0);
    } else {
        lemma_low_part_of_index(x, o, n - 1);
        lemma_low_bits(x, (n - 1) as u64);
        lemma_weight_bit((n - 1) as u64);
        assert((o[n - 1] != 0) == bit_is_set(x, n - 1));
    }
}

/// The four indices of the edges that four indices stand for are these
/// indices, and the number of their flipped cubies is even.
pub proof fn lemma_indices_of_edges(slice_prm: int, non_slice_prm: int, slice_loc: int, ori: int)
    requires
        0 <= slice_prm < 24,
        0 <= non_slice_prm < 40320,
        0 <= slice_loc < 495,
        0 <= ori < 2048,
    ensures
        Edges::spec_from_index(slice_prm, non_slice_prm, slice_loc, ori).well_formed(),
        edge_balanced(
            Edges::spec_from_index(slice_prm, non_slice_prm, slice_loc, ori).spec_state(),
        ),
        Edges::spec_from_index(slice_prm, non_slice_prm, slice_loc, ori).spec_slice_prm_index()
            == slice_prm,
        Edges::spec_from_index(slice_prm, non_slice_prm, slice_loc, ori).spec_non_slice_prm_index()
            == non_slice_prm,
        Edges::spec_from_index(slice_prm, non_slice_prm, slice_loc, ori).spec_slice_loc_index()
            == slice_loc,
        Edges::spec_from_index(slice_prm, non_slice_prm, slice_loc, ori).spec_ori_index() == ori,
{
    let e = Edges::spec_from_index(slice_prm, non_slice_prm, slice_loc, ori);
    let base = spec_nth_permutation(non_slice_prm as nat, 8);
    let inner = spec_nth_permutation(slice_prm as nat, 4);
    let places = spec_nth_combination(12, 4, slice_loc as nat);
    lemma_edge_state_of(slice_prm, non_slice_prm, slice_loc, ori);
    lemma_factorial_table(8);
    lemma_factorial_table(4);
    lemma_pascal_table(12, 4);
    lemma_nth_permutation(non_slice_prm as nat, 8);
    lemma_nth_permutation(slice_prm as nat, 4);
    crate::math::lemma_nth_combination(12, 4, slice_loc as nat);
    let cubies = edge_cubies_of(slice_prm, non_slice_prm, slice_loc);
    assert(e.spec_cubies() =~= cubies);
    assert(places[0] < places[1] && places[1] < places[2] && places[2] < places[3]);
    assert(places[3] < 12);
    lemma_interleave_pattern(base, inner, places, 4);
    lemma_others_of_interleave(base, inner, places, 4);
    lemma_slice_by_pattern(cubies, inner, places, 4);
    assert(places.take(4) =~= places);
    assert(inner.take(4) =~= inner);
    lemma_index_of_flips(ori);
    assert(e.spec_orientations() =~= edge_orientations_of(ori));
    assert(edge_flips_of(e.spec_state()) =~= edge_orientations_of(ori));
}

/// The two indices of the corners that two indices stand for are these
/// indices, and their orientations are balanced.
pub proof fn lemma_indices_of_corners(prm: int, ori: int)
    requires
        0 <= prm < 40320,
        0 <= ori < 2187,
    ensures
        Corners::spec_from_index(prm, ori).well_formed(),
        corner_balanced(Corners::spec_from_index(prm, ori).spec_state()),
        Corners::spec_from_index(prm, ori).spec_prm_index() == prm,
        Corners::spec_from_index(prm, ori).spec_ori_index() == ori,
{
    lemma_corner_state_of(prm, ori);
    lemma_orientations_one_by_one(ori);
    let s = corner_state_of(prm, ori);
    let o = corner_orientations_of(ori);
    assert(s[0] / 16 == o[0] && s[1] / 16 == o[1] && s[2] / 16 == o[2] && s[3] / 16 == o[3]);
    assert(s[4] / 16 == o[4] && s[5] / 16 == o[5] && s[6] / 16 == o[6] && s[7] / 16 == o[7]);
}

} // verus!
