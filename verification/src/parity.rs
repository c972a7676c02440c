//! The parity of the permutations of the cubies: every quarter turn makes an
//! even permutation of the corners odd and an odd one even, and does the same
//! to the edges, and no half turn changes either, so that the two parities
//! agree at every state that turns lead to from the solved cube.

use crate::corners::{corner_source, lemma_corners_twisted_state, Corners};
use crate::edges::{edge_source, lemma_edges_twisted_state, spec_part, Edges};
use crate::math::{
    count_less, lemma_count_less_concat, lemma_count_less_none, lemma_digit_sum_of_rank,
    lemma_swap_flips_parity, spec_inversions, spec_is_even, spec_is_even_sequence, spec_swapped,
};
use crate::twist::{Twist, Twistable};
use vstd::prelude::*;

verus! {

/// The cubies of the corners after the turn `t`, without their orientations.
pub open spec fn corner_cubies_after(p: Seq<u8>, t: Twist) -> Seq<u8> {
    Seq::new(8, |i: int| p[corner_source(t, i)])
}

/// The cubies of the edges after the turn `t`, without their orientations.
pub open spec fn edge_cubies_after(p: Seq<u8>, t: Twist) -> Seq<u8> {
    Seq::new(12, |i: int| p[edge_source(t, i)])
}

proof fn lemma_corner_parity_l1(p: Seq<u8>)
    requires
        p.len() == 8,
        forall|a: int, b: int| 0 <= a < b < p.len() ==> p[a] != p[b],
    ensures
        spec_is_even_sequence(corner_cubies_after(p, Twist::L1)) != spec_is_even_sequence(p),
{
    lemma_swap_flips_parity(p, 0, 2);
    let s1 = spec_swapped(p, 0, 2);
    lemma_swap_flips_parity(s1, 2, 6);
    let s2 = spec_swapped(s1, 2, 6);
    lemma_swap_flips_parity(s2, 4, 6);
    let s3 = spec_swapped(s2, 4, 6);
    assert(corner_cubies_after(p, Twist::L1) =~= s3);
}

proof fn lemma_corner_parity_l2(p: Seq<u8>)
    requires
        p.len() == 8,
        forall|a: int, b: int| 0 <= a < b < p.len() ==> p[a] != p[b],
    ensures
        spec_is_even_sequence(corner_cubies_after(p, Twist::L2)) == spec_is_even_sequence(p),
{
    lemma_swap_flips_parity(p, 0, 6);
    let s1 = spec_swapped(p, 0, 6);
    lemma_swap_flips_parity(s1, 2, 4);
    let s2 = spec_swapped(s1, 2, 4);
    assert(corner_cubies_after(p, Twist::L2) =~= s2);
}

proof fn lemma_corner_parity_l3(p: Seq<u8>)
    requires
        p.len() == 8,
        forall|a: int, b: int| 0 <= a < b < p.len() ==> p[a] != p[b],
    ensures
        spec_is_even_sequence(corner_cubies_after(p, Twist::L3)) != spec_is_even_sequence(p),
{
    lemma_swap_flips_parity(p, 0, 4);
    let s1 = spec_swapped(p, 0, 4);
    lemma_swap_flips_parity(s1, 4, 6);
    let s2 = spec_swapped(s1, 4, 6);
    lemma_swap_flips_parity(s2, 2, 6);
    let s3 = spec_swapped(s2, 2, 6);
    assert(corner_cubies_after(p, Twist::L3) =~= s3);
}

proof fn lemma_corner_parity_r1(p: Seq<u8>)
    requires
        p.len() == 8,
        forall|a: int, b: int| 0 <= a < b < p.len() ==> p[a] != p[b],
    ensures
        spec_is_even_sequence(corner_cubies_after(p, Twist::R1)) != spec_is_even_sequence(p),
{
    lemma_swap_flips_parity(p, 1, 5);
    let s1 = spec_swapped(p, 1, 5);
    lemma_swap_flips_parity(s1, 5, 7);
    let s2 = spec_swapped(s1, 5, 7);
    lemma_swap_flips_parity(s2, 3, 7);
    let s3 = spec_swapped(s2, 3, 7);
    assert(corner_cubies_after(p, Twist::R1) =~= s3);
}

proof fn lemma_corner_parity_r2(p: Seq<u8>)
    requires
        p.len() == 8,
        forall|a: int, b: int| 0 <= a < b < p.len() ==> p[a] != p[b],
    ensures
        spec_is_even_sequence(corner_cubies_after(p, Twist::R2)) == spec_is_even_sequence(p),
{
    lemma_swap_flips_parity(p, 1, 7);
    let s1 = spec_swapped(p, 1, 7);
    lemma_swap_flips_parity(s1, 3, 5);
    let s2 = spec_swapped(s1, 3, 5);
    assert(corner_cubies_after(p, Twist::R2) =~= s2);
}

proof fn lemma_corner_parity_r3(p: Seq<u8>)
    requires
        p.len() == 8,
        forall|a: int, b: int| 0 <= a < b < p.len() ==> p[a] != p[b],
    ensures
        spec_is_even_sequence(corner_cubies_after(p, Twist::R3)) != spec_is_even_sequence(p),
{
    lemma_swap_flips_parity(p, 1, 3);
    let s1 = spec_swapped(p, 1, 3);
    lemma_swap_flips_parity(s1, 3, 7);
    let s2 = spec_swapped(s1, 3, 7);
    lemma_swap_flips_parity(s2, 5, 7);
    let s3 = spec_swapped(s2, 5, 7);
    assert(corner_cubies_after(p, Twist::R3) =~= s3);
}

proof fn lemma_corner_parity_u1(p: Seq<u8>)
    requires
        p.len() == 8,
        forall|a: int, b: int| 0 <= a < b < p.len() ==> p[a] != p[b],
    ensures
        spec_is_even_sequence(corner_cubies_after(p, Twist::U1)) != spec_is_even_sequence(p),
{
    lemma_swap_flips_parity(p, 0, 1);
    let s1 = spec_swapped(p, 0, 1);
    lemma_swap_flips_parity(s1, 1, 3);
    let s2 = spec_swapped(s1, 1, 3);
    lemma_swap_flips_parity(s2, 2, 3);
    let s3 = spec_swapped(s2, 2, 3);
    assert(corner_cubies_after(p, Twist::U1) =~= s3);
}

proof fn lemma_corner_parity_u2(p: Seq<u8>)
    requires
        p.len() == 8,
        forall|a: int, b: int| 0 <= a < b < p.len() ==> p[a] != p[b],
    ensures
        spec_is_even_sequence(corner_cubies_after(p, Twist::U2)) == spec_is_even_sequence(p),
{
    lemma_swap_flips_parity(p, 0, 3);
    let s1 = spec_swapped(p, 0, 3);
    lemma_swap_flips_parity(s1, 1, 2);
    let s2 = spec_swapped(s1, 1, 2);
    assert(corner_cubies_after(p, Twist::U2) =~= s2);
}

proof fn lemma_corner_parity_u3(p: Seq<u8>)
    requires
        p.len() == 8,
        forall|a: int, b: int| 0 <= a < b < p.len() ==> p[a] != p[b],
    ensures
        spec_is_even_sequence(corner_cubies_after(p, Twist::U3)) != spec_is_even_sequence(p),
{
    lemma_swap_flips_parity(p, 0, 2);
    let s1 = spec_swapped(p, 0, 2);
    lemma_swap_flips_parity(s1, 2, 3);
    let s2 = spec_swapped(s1, 2, 3);
    lemma_swap_flips_parity(s2, 1, 3);
    let s3 = spec_swapped(s2, 1, 3);
    assert(corner_cubies_after(p, Twist::U3) =~= s3);
}

proof fn lemma_corner_parity_d1(p: Seq<u8>)
    requires
        p.len() == 8,
        forall|a: int, b: int| 0 <= a < b < p.len() ==> p[a] != p[b],
    ensures
        spec_is_even_sequence(corner_cubies_after(p, Twist::D1)) != spec_is_even_sequence(p),
{
    lemma_swap_flips_parity(p, 4, 6);
    let s1 = spec_swapped(p, 4, 6);
    lemma_swap_flips_parity(s1, 6, 7);
    let s2 = spec_swapped(s1, 6, 7);
    lemma_swap_flips_parity(s2, 5, 7);
    let s3 = spec_swapped(s2, 5, 7);
    assert(corner_cubies_after(p, Twist::D1) =~= s3);
}

proof fn lemma_corner_parity_d2(p: Seq<u8>)
    requires
        p.len() == 8,
        forall|a: int, b: int| 0 <= a < b < p.len() ==> p[a] != p[b],
    ensures
        spec_is_even_sequence(corner_cubies_after(p, Twist::D2)) == spec_is_even_sequence(p),
{
    lemma_swap_flips_parity(p, 4, 7);
    let s1 = spec_swapped(p, 4, 7);
    lemma_swap_flips_parity(s1, 5, 6);
    let s2 = spec_swapped(s1, 5, 6);
    assert(corner_cubies_after(p, Twist::D2) =~= s2);
}

proof fn lemma_corner_parity_d3(p: Seq<u8>)
    requires
        p.len() == 8,
        forall|a: int, b: int| 0 <= a < b < p.len() ==> p[a] != p[b],
    ensures
        spec_is_even_sequence(corner_cubies_after(p, Twist::D3)) != spec_is_even_sequence(p),
{
    lemma_swap_flips_parity(p, 4, 5);
    let s1 = spec_swapped(p, 4, 5);
    lemma_swap_flips_parity(s1, 5, 7);
    let s2 = spec_swapped(s1, 5, 7);
    lemma_swap_flips_parity(s2, 6, 7);
    let s3 = spec_swapped(s2, 6, 7);
    assert(corner_cubies_after(p, Twist::D3) =~= s3);
}

proof fn lemma_corner_parity_f1(p: Seq<u8>)
    requires
        p.len() == 8,
        forall|a: int, b: int| 0 <= a < b < p.len() ==> p[a] != p[b],
    ensures
        spec_is_even_sequence(corner_cubies_after(p, Twist::F1)) != spec_is_even_sequence(p),
{
    lemma_swap_flips_parity(p, 0, 4);
    let s1 = spec_swapped(p, 0, 4);
    lemma_swap_flips_parity(s1, 4, 5);
    let s2 = spec_swapped(s1, 4, 5);
    lemma_swap_flips_parity(s2, 1, 5);
    let s3 = spec_swapped(s2, 1, 5);
    assert(corner_cubies_after(p, Twist::F1) =~= s3);
}

proof fn lemma_corner_parity_f2(p: Seq<u8>)
    requires
        p.len() == 8,
        forall|a: int, b: int| 0 <= a < b < p.len() ==> p[a] != p[b],
    ensures
        spec_is_even_sequence(corner_cubies_after(p, Twist::F2)) == spec_is_even_sequence(p),
{
    lemma_swap_flips_parity(p, 0, 5);
    let s1 = spec_swapped(p, 0, 5);
    lemma_swap_flips_parity(s1, 1, 4);
    let s2 = spec_swapped(s1, 1, 4);
    assert(corner_cubies_after(p, Twist::F2) =~= s2);
}

proof fn lemma_corner_parity_f3(p: Seq<u8>)
    requires
        p.len() == 8,
        forall|a: int, b: int| 0 <= a < b < p.len() ==> p[a] != p[b],
    ensures
        spec_is_even_sequence(corner_cubies_after(p, Twist::F3)) != spec_is_even_sequence(p),
{
    lemma_swap_flips_parity(p, 0, 1);
    let s1 = spec_swapped(p, 0, 1);
    lemma_swap_flips_parity(s1, 1, 5);
    let s2 = spec_swapped(s1, 1, 5);
    lemma_swap_flips_parity(s2, 4, 5);
    let s3 = spec_swapped(s2, 4, 5);
    assert(corner_cubies_after(p, Twist::F3) =~= s3);
}

proof fn lemma_corner_parity_b1(p: Seq<u8>)
    requires
        p.len() == 8,
        forall|a: int, b: int| 0 <= a < b < p.len() ==> p[a] != p[b],
    ensures
        spec_is_even_sequence(corner_cubies_after(p, Twist::B1)) != spec_is_even_sequence(p),
{
    lemma_swap_flips_parity(p, 2, 3);
    let s1 = spec_swapped(p, 2, 3);
    lemma_swap_flips_parity(s1, 3, 7);
    let s2 = spec_swapped(s1, 3, 7);
    lemma_swap_flips_parity(s2, 6, 7);
    let s3 = spec_swapped(s2, 6, 7);
    assert(corner_cubies_after(p, Twist::B1) =~= s3);
}

proof fn lemma_corner_parity_b2(p: Seq<u8>)
    requires
        p.len() == 8,
        forall|a: int, b: int| 0 <= a < b < p.len() ==> p[a] != p[b],
    ensures
        spec_is_even_sequence(corner_cubies_after(p, Twist::B2)) == spec_is_even_sequence(p),
{
    lemma_swap_flips_parity(p, 2, 7);
    let s1 = spec_swapped(p, 2, 7);
    lemma_swap_flips_parity(s1, 3, 6);
    let s2 = spec_swapped(s1, 3, 6);
    assert(corner_cubies_after(p, Twist::B2) =~= s2);
}

proof fn lemma_corner_parity_b3(p: Seq<u8>)
    requires
        p.len() == 8,
        forall|a: int, b: int| 0 <= a < b < p.len() ==> p[a] != p[b],
    ensures
        spec_is_even_sequence(corner_cubies_after(p, Twist::B3)) != spec_is_even_sequence(p),
{
    lemma_swap_flips_parity(p, 2, 6);
    let s1 = spec_swapped(p, 2, 6);
    lemma_swap_flips_parity(s1, 6, 7);
    let s2 = spec_swapped(s1, 6, 7);
    lemma_swap_flips_parity(s2, 3, 7);
    let s3 = spec_swapped(s2, 3, 7);
    assert(corner_cubies_after(p, Twist::B3) =~= s3);
}

/// A quarter turn changes the parity of the corners, and a half turn does not.
pub proof fn lemma_corner_turn_parity(p: Seq<u8>, t: Twist)
    requires
        p.len() == 8,
        forall|a: int, b: int| 0 <= a < b < p.len() ==> p[a] != p[b],
    ensures
        spec_is_even_sequence(corner_cubies_after(p, t)) == (spec_is_even_sequence(p) == (t.spec_quarter_turns()
            == 2)),
{
    match t {
        Twist::L1 => lemma_corner_parity_l1(p),
        Twist::L2 => lemma_corner_parity_l2(p),
        Twist::L3 => lemma_corner_parity_l3(p),
        Twist::R1 => lemma_corner_parity_r1(p),
        Twist::R2 => lemma_corner_parity_r2(p),
        Twist::R3 => lemma_corner_parity_r3(p),
        Twist::U1 => lemma_corner_parity_u1(p),
        Twist::U2 => lemma_corner_parity_u2(p),
        Twist::U3 => lemma_corner_parity_u3(p),
        Twist::D1 => lemma_corner_parity_d1(p),
        Twist::D2 => lemma_corner_parity_d2(p),
        Twist::D3 => lemma_corner_parity_d3(p),
        Twist::F1 => lemma_corner_parity_f1(p),
        Twist::F2 => lemma_corner_parity_f2(p),
        Twist::F3 => lemma_corner_parity_f3(p),
        Twist::B1 => lemma_corner_parity_b1(p),
        Twist::B2 => lemma_corner_parity_b2(p),
        Twist::B3 => lemma_corner_parity_b3(p),
    }
}

proof fn lemma_edge_parity_l1(p: Seq<u8>)
    requires
        p.len() == 12,
        forall|a: int, b: int| 0 <= a < b < p.len() ==> p[a] != p[b],
    ensures
        spec_is_even_sequence(edge_cubies_after(p, Twist::L1)) != spec_is_even_sequence(p),
{
    lemma_swap_flips_parity(p, 4, 11);
    let s1 = spec_swapped(p, 4, 11);
    lemma_swap_flips_parity(s1, 7, 11);
    let s2 = spec_swapped(s1, 7, 11);
    lemma_swap_flips_parity(s2, 7, 8);
    let s3 = spec_swapped(s2, 7, 8);
    assert(edge_cubies_after(p, Twist::L1) =~= s3);
}

proof fn lemma_edge_parity_l2(p: Seq<u8>)
    requires
        p.len() == 12,
        forall|a: int, b: int| 0 <= a < b < p.len() ==> p[a] != p[b],
    ensures
        spec_is_even_sequence(edge_cubies_after(p, Twist::L2)) == spec_is_even_sequence(p),
{
    lemma_swap_flips_parity(p, 4, 7);
    let s1 = spec_swapped(p, 4, 7);
    lemma_swap_flips_parity(s1, 8, 11);
    let s2 = spec_swapped(s1, 8, 11);
    assert(edge_cubies_after(p, Twist::L2) =~= s2);
}

proof fn lemma_edge_parity_l3(p: Seq<u8>)
    requires
        p.len() == 12,
        forall|a: int, b: int| 0 <= a < b < p.len() ==> p[a] != p[b],
    ensures
        spec_is_even_sequence(edge_cubies_after(p, Twist::L3)) != spec_is_even_sequence(p),
{
    lemma_swap_flips_parity(p, 4, 8);
    let s1 = spec_swapped(p, 4, 8);
    lemma_swap_flips_parity(s1, 7, 8);
    let s2 = spec_swapped(s1, 7, 8);
    lemma_swap_flips_parity(s2, 7, 11);
    let s3 = spec_swapped(s2, 7, 11);
    assert(edge_cubies_after(p, Twist::L3) =~= s3);
}

proof fn lemma_edge_parity_r1(p: Seq<u8>)
    requires
        p.len() == 12,
        forall|a: int, b: int| 0 <= a < b < p.len() ==> p[a] != p[b],
    ensures
        spec_is_even_sequence(edge_cubies_after(p, Twist::R1)) != spec_is_even_sequence(p),
{
    lemma_swap_flips_parity(p, 5, 9);
    let s1 = spec_swapped(p, 5, 9);
    lemma_swap_flips_parity(s1, 6, 9);
    let s2 = spec_swapped(s1, 6, 9);
    lemma_swap_flips_parity(s2, 6, 10);
    let s3 = spec_swapped(s2, 6, 10);
    assert(edge_cubies_after(p, Twist::R1) =~= s3);
}

proof fn lemma_edge_parity_r2(p: Seq<u8>)
    requires
        p.len() == 12,
        forall|a: int, b: int| 0 <= a < b < p.len() ==> p[a] != p[b],
    ensures
        spec_is_even_sequence(edge_cubies_after(p, Twist::R2)) == spec_is_even_sequence(p),
{
    lemma_swap_flips_parity(p, 5, 6);
    let s1 = spec_swapped(p, 5, 6);
    lemma_swap_flips_parity(s1, 9, 10);
    let s2 = spec_swapped(s1, 9, 10);
    assert(edge_cubies_after(p, Twist::R2) =~= s2);
}

proof fn lemma_edge_parity_r3(p: Seq<u8>)
    requires
        p.len() == 12,
        forall|a: int, b: int| 0 <= a < b < p.len() ==> p[a] != p[b],
    ensures
        spec_is_even_sequence(edge_cubies_after(p, Twist::R3)) != spec_is_even_sequence(p),
{
    lemma_swap_flips_parity(p, 5, 10);
    let s1 = spec_swapped(p, 5, 10);
    lemma_swap_flips_parity(s1, 6, 10);
    let s2 = spec_swapped(s1, 6, 10);
    lemma_swap_flips_parity(s2, 6, 9);
    let s3 = spec_swapped(s2, 6, 9);
    assert(edge_cubies_after(p, Twist::R3) =~= s3);
}

proof fn lemma_edge_parity_u1(p: Seq<u8>)
    requires
        p.len() == 12,
        forall|a: int, b: int| 0 <= a < b < p.len() ==> p[a] != p[b],
    ensures
        spec_is_even_sequence(edge_cubies_after(p, Twist::U1)) != spec_is_even_sequence(p),
{
    lemma_swap_flips_parity(p, 0, 5);
    let s1 = spec_swapped(p, 0, 5);
    lemma_swap_flips_parity(s1, 1, 5);
    let s2 = spec_swapped(s1, 1, 5);
    lemma_swap_flips_parity(s2, 1, 4);
    let s3 = spec_swapped(s2, 1, 4);
    assert(edge_cubies_after(p, Twist::U1) =~= s3);
}

proof fn lemma_edge_parity_u2(p: Seq<u8>)
    requires
        p.len() == 12,
        forall|a: int, b: int| 0 <= a < b < p.len() ==> p[a] != p[b],
    ensures
        spec_is_even_sequence(edge_cubies_after(p, Twist::U2)) == spec_is_even_sequence(p),
{
    lemma_swap_flips_parity(p, 0, 1);
    let s1 = spec_swapped(p, 0, 1);
    lemma_swap_flips_parity(s1, 4, 5);
    let s2 = spec_swapped(s1, 4, 5);
    assert(edge_cubies_after(p, Twist::U2) =~= s2);
}

proof fn lemma_edge_parity_u3(p: Seq<u8>)
    requires
        p.len() == 12,
        forall|a: int, b: int| 0 <= a < b < p.len() ==> p[a] != p[b],
    ensures
        spec_is_even_sequence(edge_cubies_after(p, Twist::U3)) != spec_is_even_sequence(p),
{
    lemma_swap_flips_parity(p, 0, 4);
    let s1 = spec_swapped(p, 0, 4);
    lemma_swap_flips_parity(s1, 1, 4);
    let s2 = spec_swapped(s1, 1, 4);
    lemma_swap_flips_parity(s2, 1, 5);
    let s3 = spec_swapped(s2, 1, 5);
    assert(edge_cubies_after(p, Twist::U3) =~= s3);
}

proof fn lemma_edge_parity_d1(p: Seq<u8>)
    requires
        p.len() == 12,
        forall|a: int, b: int| 0 <= a < b < p.len() ==> p[a] != p[b],
    ensures
        spec_is_even_sequence(edge_cubies_after(p, Twist::D1)) != spec_is_even_sequence(p),
{
    lemma_swap_flips_parity(p, 2, 6);
    let s1 = spec_swapped(p, 2, 6);
    lemma_swap_flips_parity(s1, 3, 6);
    let s2 = spec_swapped(s1, 3, 6);
    lemma_swap_flips_parity(s2, 3, 7);
    let s3 = spec_swapped(s2, 3, 7);
    assert(edge_cubies_after(p, Twist::D1) =~= s3);
}

proof fn lemma_edge_parity_d2(p: Seq<u8>)
    requires
        p.len() == 12,
        forall|a: int, b: int| 0 <= a < b < p.len() ==> p[a] != p[b],
    ensures
        spec_is_even_sequence(edge_cubies_after(p, Twist::D2)) == spec_is_even_sequence(p),
{
    lemma_swap_flips_parity(p, 2, 3);
    let s1 = spec_swapped(p, 2, 3);
    lemma_swap_flips_parity(s1, 6, 7);
    let s2 = spec_swapped(s1, 6, 7);
    assert(edge_cubies_after(p, Twist::D2) =~= s2);
}

proof fn lemma_edge_parity_d3(p: Seq<u8>)
    requires
        p.len() == 12,
        forall|a: int, b: int| 0 <= a < b < p.len() ==> p[a] != p[b],
    ensures
        spec_is_even_sequence(edge_cubies_after(p, Twist::D3)) != spec_is_even_sequence(p),
{
    lemma_swap_flips_parity(p, 2, 7);
    let s1 = spec_swapped(p, 2, 7);
    lemma_swap_flips_parity(s1, 3, 7);
    let s2 = spec_swapped(s1, 3, 7);
    lemma_swap_flips_parity(s2, 3, 6);
    let s3 = spec_swapped(s2, 3, 6);
    assert(edge_cubies_after(p, Twist::D3) =~= s3);
}

proof fn lemma_edge_parity_f1(p: Seq<u8>)
    requires
        p.len() == 12,
        forall|a: int, b: int| 0 <= a < b < p.len() ==> p[a] != p[b],
    ensures
        spec_is_even_sequence(edge_cubies_after(p, Twist::F1)) != spec_is_even_sequence(p),
{
    lemma_swap_flips_parity(p, 0, 8);
    let s1 = spec_swapped(p, 0, 8);
    lemma_swap_flips_parity(s1, 3, 8);
    let s2 = spec_swapped(s1, 3, 8);
    lemma_swap_flips_parity(s2, 3, 9);
    let s3 = spec_swapped(s2, 3, 9);
    assert(edge_cubies_after(p, Twist::F1) =~= s3);
}

proof fn lemma_edge_parity_f2(p: Seq<u8>)
    requires
        p.len() == 12,
        forall|a: int, b: int| 0 <= a < b < p.len() ==> p[a] != p[b],
    ensures
        spec_is_even_sequence(edge_cubies_after(p, Twist::F2)) == spec_is_even_sequence(p),
{
    lemma_swap_flips_parity(p, 0, 3);
    let s1 = spec_swapped(p, 0, 3);
    lemma_swap_flips_parity(s1, 8, 9);
    let s2 = spec_swapped(s1, 8, 9);
    assert(edge_cubies_after(p, Twist::F2) =~= s2);
}

proof fn lemma_edge_parity_f3(p: Seq<u8>)
    requires
        p.len() == 12,
        forall|a: int, b: int| 0 <= a < b < p.len() ==> p[a] != p[b],
    ensures
        spec_is_even_sequence(edge_cubies_after(p, Twist::F3)) != spec_is_even_sequence(p),
{
    lemma_swap_flips_parity(p, 0, 9);
    let s1 = spec_swapped(p, 0, 9);
    lemma_swap_flips_parity(s1, 3, 9);
    let s2 = spec_swapped(s1, 3, 9);
    lemma_swap_flips_parity(s2, 3, 8);
    let s3 = spec_swapped(s2, 3, 8);
    assert(edge_cubies_after(p, Twist::F3) =~= s3);
}

proof fn lemma_edge_parity_b1(p: Seq<u8>)
    requires
        p.len() == 12,
        forall|a: int, b: int| 0 <= a < b < p.len() ==> p[a] != p[b],
    ensures
        spec_is_even_sequence(edge_cubies_after(p, Twist::B1)) != spec_is_even_sequence(p),
{
    lemma_swap_flips_parity(p, 1, 10);
    let s1 = spec_swapped(p, 1, 10);
    lemma_swap_flips_parity(s1, 2, 10);
    let s2 = spec_swapped(s1, 2, 10);
    lemma_swap_flips_parity(s2, 2, 11);
    let s3 = spec_swapped(s2, 2, 11);
    assert(edge_cubies_after(p, Twist::B1) =~= s3);
}

proof fn lemma_edge_parity_b2(p: Seq<u8>)
    requires
        p.len() == 12,
        forall|a: int, b: int| 0 <= a < b < p.len() ==> p[a] != p[b],
    ensures
        spec_is_even_sequence(edge_cubies_after(p, Twist::B2)) == spec_is_even_sequence(p),
{
    lemma_swap_flips_parity(p, 1, 2);
    let s1 = spec_swapped(p, 1, 2);
    lemma_swap_flips_parity(s1, 10, 11);
    let s2 = spec_swapped(s1, 10, 11);
    assert(edge_cubies_after(p, Twist::B2) =~= s2);
}

proof fn lemma_edge_parity_b3(p: Seq<u8>)
    requires
        p.len() == 12,
        forall|a: int, b: int| 0 <= a < b < p.len() ==> p[a] != p[b],
    ensures
        spec_is_even_sequence(edge_cubies_after(p, Twist::B3)) != spec_is_even_sequence(p),
{
    lemma_swap_flips_parity(p, 1, 11);
    let s1 = spec_swapped(p, 1, 11);
    lemma_swap_flips_parity(s1, 2, 11);
    let s2 = spec_swapped(s1, 2, 11);
    lemma_swap_flips_parity(s2, 2, 10);
    let s3 = spec_swapped(s2, 2, 10);
    assert(edge_cubies_after(p, Twist::B3) =~= s3);
}

/// A quarter turn changes the parity of the edges, and a half turn does not.
pub proof fn lemma_edge_turn_parity(p: Seq<u8>, t: Twist)
    requires
        p.len() == 12,
        forall|a: int, b: int| 0 <= a < b < p.len() ==> p[a] != p[b],
    ensures
        spec_is_even_sequence(edge_cubies_after(p, t)) == (spec_is_even_sequence(p) == (t.spec_quarter_turns()
            == 2)),
{
    match t {
        Twist::L1 => lemma_edge_parity_l1(p),
        Twist::L2 => lemma_edge_parity_l2(p),
        Twist::L3 => lemma_edge_parity_l3(p),
        Twist::R1 => lemma_edge_parity_r1(p),
        Twist::R2 => lemma_edge_parity_r2(p),
        Twist::R3 => lemma_edge_parity_r3(p),
        Twist::U1 => lemma_edge_parity_u1(p),
        Twist::U2 => lemma_edge_parity_u2(p),
        Twist::U3 => lemma_edge_parity_u3(p),
        Twist::D1 => lemma_edge_parity_d1(p),
        Twist::D2 => lemma_edge_parity_d2(p),
        Twist::D3 => lemma_edge_parity_d3(p),
        Twist::F1 => lemma_edge_parity_f1(p),
        Twist::F2 => lemma_edge_parity_f2(p),
        Twist::F3 => lemma_edge_parity_f3(p),
        Twist::B1 => lemma_edge_parity_b1(p),
        Twist::B2 => lemma_edge_parity_b2(p),
        Twist::B3 => lemma_edge_parity_b3(p),
    }
}

/// Whether the permutation of the cubies is even.
pub open spec fn corners_even(c: Corners) -> bool {
    spec_is_even_sequence(c.spec_cubies())
}

/// Whether the permutation of the cubies is even.
pub open spec fn edges_even(e: Edges) -> bool {
    spec_is_even_sequence(e.spec_cubies())
}

/// The cubies of the corners after a turn are the cubies before it at other
/// places.
pub proof fn lemma_corner_cubies_after(c: Corners, t: Twist)
    requires
        c.well_formed(),
    ensures
        c.spec_twisted(t).well_formed(),
        c.spec_cubies().len() == 8,
        forall|a: int, b: int| 0 <= a < b < 8 ==> c.spec_cubies()[a] != c.spec_cubies()[b],
        c.spec_twisted(t).spec_cubies() == corner_cubies_after(c.spec_cubies(), t),
{
    let s = c.spec_state();
    lemma_corners_twisted_state(c, t);
    crate::corners::lemma_twisted_state_ok(s, t);
    assert forall|i: int| 0 <= i < 8 implies c.spec_twisted(t).spec_cubies()[i]
        == corner_cubies_after(c.spec_cubies(), t)[i] by {
        assert(s[corner_source(t, i)] < 48);
    }
    assert(c.spec_twisted(t).spec_cubies() =~= corner_cubies_after(c.spec_cubies(), t));
}

/// The cubies of the edges after a turn are the cubies before it at other
/// places.
pub proof fn lemma_edge_cubies_after(e: Edges, t: Twist)
    requires
        e.well_formed(),
    ensures
        e.spec_twisted(t).well_formed(),
        e.spec_cubies().len() == 12,
        forall|a: int, b: int| 0 <= a < b < 12 ==> e.spec_cubies()[a] != e.spec_cubies()[b],
        e.spec_twisted(t).spec_cubies() == edge_cubies_after(e.spec_cubies(), t),
{
    let s = e.spec_state();
    lemma_edges_twisted_state(e, t);
    crate::edges::lemma_twisted_state_ok(s, t);
    assert forall|i: int| 0 <= i < 12 implies e.spec_twisted(t).spec_cubies()[i]
        == edge_cubies_after(e.spec_cubies(), t)[i] by {
        assert(s[edge_source(t, i)] < 32);
    }
    assert(e.spec_twisted(t).spec_cubies() =~= edge_cubies_after(e.spec_cubies(), t));
}

/// A turn changes the parity of the corners exactly where it changes that of
/// the edges: where the two agree before a turn, they agree after it.
#[verifier::rlimit(50)]
pub proof fn lemma_turn_keeps_parities_together(c: Corners, e: Edges, t: Twist)
    requires
        c.well_formed(),
        e.well_formed(),
    ensures
        corners_even(c.spec_twisted(t)) == (corners_even(c) == (t.spec_quarter_turns() == 2)),
        edges_even(e.spec_twisted(t)) == (edges_even(e) == (t.spec_quarter_turns() == 2)),
        (corners_even(c.spec_twisted(t)) == edges_even(e.spec_twisted(t))) == (corners_even(c)
            == edges_even(e)),
{
    lemma_corner_cubies_after(c, t);
    lemma_edge_cubies_after(e, t);
    lemma_corner_turn_parity(c.spec_cubies(), t);
    lemma_edge_turn_parity(e.spec_cubies(), t);
}

/// The corners after the turns `twists`, one after the other.
pub open spec fn corners_twisted_by(c: Corners, twists: Seq<Twist>) -> Corners
    decreases twists.len(),
{
    if twists.len() == 0 {
        c
    } else {
        corners_twisted_by(c, twists.drop_last()).spec_twisted(twists.last())
    }
}

/// The edges after the turns `twists`, one after the other.
pub open spec fn edges_twisted_by(e: Edges, twists: Seq<Twist>) -> Edges
    decreases twists.len(),
{
    if twists.len() == 0 {
        e
    } else {
        edges_twisted_by(e, twists.drop_last()).spec_twisted(twists.last())
    }
}

/// At every state that turns lead to, from a state at which the permutation of
/// the corners is even exactly where that of the edges is, it is so again.
pub proof fn lemma_parities_agree(c: Corners, e: Edges, twists: Seq<Twist>)
    requires
        c.well_formed(),
        e.well_formed(),
        corners_even(c) == edges_even(e),
    ensures
        corners_twisted_by(c, twists).well_formed(),
        edges_twisted_by(e, twists).well_formed(),
        corners_even(corners_twisted_by(c, twists)) == edges_even(edges_twisted_by(e, twists)),
    decreases twists.len(),
{
    if twists.len() > 0 {
        let before = twists.drop_last();
        let t = twists.last();
        lemma_parities_agree(c, e, before);
        let cb = corners_twisted_by(c, before);
        let eb = edges_twisted_by(e, before);
        lemma_turn_keeps_parities_together(cb, eb, t);
        lemma_corners_twisted_state(cb, t);
        lemma_edges_twisted_state(eb, t);
        crate::corners::lemma_twisted_state_ok(cb.spec_state(), t);
        crate::edges::lemma_twisted_state_ok(eb.spec_state(), t);
    }
}

/// At every state that turns lead to from the solved cube, the permutation
/// of the corners is even exactly where that of the edges is, and the index of
/// the permutation of the corners tells which.
pub proof fn lemma_parity_of_reachable(c: Corners, e: Edges, twists: Seq<Twist>)
    requires
        c.spec_state() == seq![0u8, 1u8, 2u8, 3u8, 4u8, 5u8, 6u8, 7u8],
        e.spec_state() == seq![0u8, 1u8, 2u8, 3u8, 4u8, 5u8, 6u8, 7u8, 8u8, 9u8, 10u8, 11u8],
    ensures
        corners_even(corners_twisted_by(c, twists)) == edges_even(edges_twisted_by(e, twists)),
        crate::math::spec_is_even(corners_twisted_by(c, twists).spec_prm_index() as int)
            == edges_even(edges_twisted_by(e, twists)),
{
    lemma_solved_is_even(c, e);
    lemma_parities_agree(c, e, twists);
    crate::math::lemma_digit_sum_of_rank(corners_twisted_by(c, twists).spec_cubies());
}

/// The cubies of the solved cube stand in ascending order, which is an even
/// permutation of the corners and of the edges.
pub proof fn lemma_solved_is_even(c: Corners, e: Edges)
    requires
        c.spec_state() == seq![0u8, 1u8, 2u8, 3u8, 4u8, 5u8, 6u8, 7u8],
        e.spec_state() == seq![0u8, 1u8, 2u8, 3u8, 4u8, 5u8, 6u8, 7u8, 8u8, 9u8, 10u8, 11u8],
    ensures
        c.well_formed(),
        e.well_formed(),
        corners_even(c),
        edges_even(e),
{
    crate::math::lemma_digit_sum_of_rank(c.spec_cubies());
    crate::math::lemma_digit_sum_of_rank(e.spec_cubies());
    crate::math::lemma_rank_of_ascending(c.spec_cubies());
    crate::math::lemma_rank_of_ascending(e.spec_cubies());
}

/// Whether the four cubies of the middle slice stand at the last four places.
pub open spec fn slice_in_place(e: Edges) -> bool {
    forall|i: int| 0 <= i < 12 ==> (#[trigger] e.spec_cubie(i) >= 8) == (i >= 8)
}

/// The turns of H0 leave the cubies of the middle slice at the last four
/// places.
pub proof fn lemma_h0_keeps_slice_in_place(e: Edges, t: Twist)
    requires
        e.well_formed(),
        slice_in_place(e),
        t.spec_quarter_turns() == 2 || t.spec_face() == 2 || t.spec_face() == 3,
    ensures
        slice_in_place(e.spec_twisted(t)),
{
    lemma_edges_twisted_state(e, t);
    let n = e.spec_twisted(t);
    assert forall|i: int| 0 <= i < 12 implies (#[trigger] n.spec_cubie(i) >= 8) == (i >= 8) by {
        let k = edge_source(t, i);
        assert(e.spec_state()[k] < 32);
        assert((e.spec_cubie(k) >= 8) == (k >= 8));
        assert((k >= 8) == (i >= 8));
    }
}

/// The inversions of two sequences one after the other, where no element of
/// the second is below an element of the first, are those within each.
pub proof fn lemma_inversions_of_two_parts(a: Seq<u8>, b: Seq<u8>, bound: int)
    requires
        forall|i: int| 0 <= i < a.len() ==> (#[trigger] a[i] as int) < bound,
        forall|i: int| 0 <= i < b.len() ==> (#[trigger] b[i] as int) >= bound,
    ensures
        spec_inversions(a + b) == spec_inversions(a) + spec_inversions(b),
    decreases a.len(),
{
    if a.len() == 0 {
        assert(a + b =~= b);
    } else {
        let rest = a.skip(1);
        assert((a + b).skip(1) =~= rest + b);
        assert((a + b)[0] == a[0]);
        lemma_count_less_concat(rest, b, a[0] as int);
        lemma_count_less_none(b, a[0] as int);
        lemma_inversions_of_two_parts(rest, b, bound);
    }
}

/// Taking the same number from every element changes no count of smaller
/// elements and no inversion.
pub proof fn lemma_inversions_of_shifted(b: Seq<u8>, c: Seq<u8>, shift: int)
    requires
        b.len() == c.len(),
        forall|i: int| 0 <= i < b.len() ==> #[trigger] b[i] == c[i] + shift,
    ensures
        forall|v: int| count_less(b, v + shift) == count_less(c, v),
        spec_inversions(b) == spec_inversions(c),
    decreases b.len(),
{
    assert forall|v: int| count_less(b, v + shift) == count_less(c, v) by {
        lemma_count_less_shifted(b, c, shift, v);
    }
    if b.len() > 0 {
        lemma_inversions_of_shifted(b.skip(1), c.skip(1), shift);
        lemma_count_less_shifted(b.skip(1), c.skip(1), shift, c[0] as int);
    }
}

proof fn lemma_count_less_shifted(b: Seq<u8>, c: Seq<u8>, shift: int, v: int)
    requires
        b.len() == c.len(),
        forall|i: int| 0 <= i < b.len() ==> #[trigger] b[i] == c[i] + shift,
    ensures
        count_less(b, v + shift) == count_less(c, v),
    decreases b.len(),
{
    if b.len() > 0 {
        lemma_count_less_shifted(b.drop_last(), c.drop_last(), shift, v);
    }
}

/// The parts of a sequence whose first eight elements are below 8 and whose
/// other elements are not: the first eight, and the others less 8.
proof fn lemma_parts_in_place(p: Seq<u8>, n: int)
    requires
        8 <= p.len(),
        0 <= n <= p.len(),
        forall|i: int| 0 <= i < p.len() ==> (#[trigger] p[i] >= 8) == (i >= 8),
    ensures
        spec_part(p.take(n), false) == p.take(if n < 8 {
            n
        } else {
            8
        }),
        spec_part(p.take(n), true).len() == (if n < 8 {
            0
        } else {
            n - 8
        }),
        forall|i: int|
            0 <= i < n - 8 ==> #[trigger] spec_part(p.take(n), true)[i] + 8 == p[8 + i],
    decreases n,
{
    if n > 0 {
        lemma_parts_in_place(p, n - 1);
        assert(p.take(n).drop_last() =~= p.take(n - 1));
        assert(p.take(n).last() == p[n - 1]);
        if n <= 8 {
            assert(spec_part(p.take(n), false) =~= p.take(n));
        } else {
            assert(spec_part(p.take(n), false) =~= p.take(8));
        }
    } else {
        assert(spec_part(p.take(0), false) =~= p.take(0));
    }
}

/// Where the cubies of the middle slice stand at the last four places, the
/// permutation of the edges is even exactly where the permutations of its two
/// parts are both even or both odd.
#[verifier::rlimit(50)]
pub proof fn lemma_edge_parity_in_the_subgroup(e: Edges)
    requires
        e.well_formed(),
        slice_in_place(e),
    ensures
        edges_even(e) == (spec_is_even(e.spec_non_slice_prm_index() as int) == spec_is_even(
            e.spec_slice_prm_index() as int,
        )),
{
    let p = e.spec_cubies();
    let a = p.take(8);
    let b = p.skip(8);
    let low = spec_part(p, false);
    let high = spec_part(p, true);
    assert forall|i: int| 0 <= i < p.len() implies (#[trigger] p[i] >= 8) == (i >= 8) by {
        assert(p[i] == e.spec_cubie(i));
    }
    lemma_parts_in_place(p, 12);
    assert(p.take(12) =~= p);
    assert(low == a);
    assert(high.len() == 4);
    assert forall|i: int| 0 <= i < b.len() implies #[trigger] b[i] == high[i] + 8 by {
        assert(b[i] == p[8 + i]);
    }
    assert(p =~= a + b);
    lemma_inversions_of_two_parts(a, b, 8);
    lemma_inversions_of_shifted(b, high, 8);
    lemma_digit_sum_of_rank(low);
    lemma_digit_sum_of_rank(high);
}

/// Where the cubies of the middle slice stand at the last four places and the
/// permutation of the corners has the parity of that of the edges, the three
/// indices of the permutations are those of a well-formed state of the
/// subgroup.
pub proof fn lemma_parity_in_the_subgroup(c: Corners, e: Edges)
    requires
        c.well_formed(),
        e.well_formed(),
        slice_in_place(e),
        corners_even(c) == edges_even(e),
    ensures
        edges_even(e) == (spec_is_even(e.spec_non_slice_prm_index() as int) == spec_is_even(
            e.spec_slice_prm_index() as int,
        )),
        spec_is_even(c.spec_prm_index() as int) == (spec_is_even(
            e.spec_non_slice_prm_index() as int,
        ) == spec_is_even(e.spec_slice_prm_index() as int)),
{
    lemma_edge_parity_in_the_subgroup(e);
    lemma_digit_sum_of_rank(c.spec_cubies());
}

/// Whether every turn of `twists` is a turn of H0.
pub open spec fn all_of_h0(twists: Seq<Twist>) -> bool {
    forall|k: int|
        0 <= k < twists.len() ==> (#[trigger] twists[k]).spec_quarter_turns() == 2
            || twists[k].spec_face() == 2 || twists[k].spec_face() == 3
}

/// At every state that turns of H0 lead to from the solved cube, the three
/// permutation indices are those of a well-formed state of the subgroup: the
/// permutation of the corners is even exactly where those of the two parts of
/// the edges are both even or both odd.
pub proof fn lemma_parity_of_reachable_in_the_subgroup(c: Corners, e: Edges, twists: Seq<Twist>)
    requires
        c.spec_state() == seq![0u8, 1u8, 2u8, 3u8, 4u8, 5u8, 6u8, 7u8],
        e.spec_state() == seq![0u8, 1u8, 2u8, 3u8, 4u8, 5u8, 6u8, 7u8, 8u8, 9u8, 10u8, 11u8],
        all_of_h0(twists),
    ensures
        slice_in_place(edges_twisted_by(e, twists)),
        spec_is_even(corners_twisted_by(c, twists).spec_prm_index() as int) == (spec_is_even(
            edges_twisted_by(e, twists).spec_non_slice_prm_index() as int,
        ) == spec_is_even(edges_twisted_by(e, twists).spec_slice_prm_index() as int)),
{
    lemma_solved_is_even(c, e);
    lemma_parities_agree(c, e, twists);
    lemma_slice_stays_in_place(e, twists);
    lemma_parity_in_the_subgroup(corners_twisted_by(c, twists), edges_twisted_by(e, twists));
}

proof fn lemma_slice_stays_in_place(e: Edges, twists: Seq<Twist>)
    requires
        e.spec_state() == seq![0u8, 1u8, 2u8, 3u8, 4u8, 5u8, 6u8, 7u8, 8u8, 9u8, 10u8, 11u8],
        all_of_h0(twists),
    ensures
        edges_twisted_by(e, twists).well_formed(),
        slice_in_place(edges_twisted_by(e, twists)),
    decreases twists.len(),
{
    if twists.len() > 0 {
        let before = twists.drop_last();
        assert forall|k: int| 0 <= k < before.len() implies (#[trigger] before[k]).spec_quarter_turns()
            == 2 || before[k].spec_face() == 2 || before[k].spec_face() == 3 by {
            assert(before[k] == twists[k]);
        }
        lemma_slice_stays_in_place(e, before);
        let eb = edges_twisted_by(e, before);
        lemma_h0_keeps_slice_in_place(eb, twists.last());
        lemma_edges_twisted_state(eb, twists.last());
        crate::edges::lemma_twisted_state_ok(eb.spec_state(), twists.last());
    }
}

} // verus!
