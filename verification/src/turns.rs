//! The laws of the turns for the cube in coordinates. Each of them holds of
//! the cubies, and the coordinates follow the cubies.

use crate::consistency::{
    cubies_balanced, lemma_corners_of_indices, lemma_cube_follows_cubies, lemma_cubies_of_indices,
    lemma_edges_of_indices, lemma_indices_of_corners, lemma_indices_of_edges, spec_cube_of,
};
use crate::corners::{
    lemma_corners_opposite_faces_commute, lemma_corners_twist_four_times,
    lemma_corners_twist_then_inverse, Corners,
};
use crate::cube::{
    lemma_coset_index_round_trip, lemma_subset_index_round_trip, CosetCube, Cube, SubsetCube,
};
use crate::edges::{
    lemma_edges_opposite_faces_commute, lemma_edges_twist_four_times,
    lemma_edges_twist_then_inverse, lemma_parts_of_permutation, lemma_rank_of_last_places,
    lemma_slice_places, spec_slice_places, Edges,
};
use crate::math::{lemma_combination_of_rank, lemma_digit_sum_of_rank, spec_is_even};
use crate::parity::{
    corners_even, edges_even, lemma_edge_parity_in_the_subgroup, lemma_h0_keeps_slice_in_place,
    lemma_turn_keeps_parities_together, slice_in_place,
};
use crate::spaces::{CosetSpace, SubsetSpace};
use crate::tables::{is_reversible, StateSpace};
use crate::twist::{spec_inversed, Twist, Twistable, Twists};
use vstd::prelude::*;

verus! {

/// The corners with the coordinates of `cube`.
pub open spec fn corners_of_cube(cube: Cube) -> Corners {
    Corners::spec_from_index(cube.c_prm as int, cube.c_ori as int)
}

/// The edges with the coordinates of `cube`.
pub open spec fn edges_of_cube(cube: Cube) -> Edges {
    Edges::spec_from_index(
        cube.e_slice_prm as int,
        cube.e_non_slice_prm as int,
        cube.e_slice_loc as int,
        cube.e_ori as int,
    )
}

/// Every cube whose coordinates are within their ranges is the cube of its
/// cubies.
pub proof fn lemma_cubies_of_cube(cube: Cube)
    requires
        cube.well_formed(),
    ensures
        cubies_balanced(corners_of_cube(cube), edges_of_cube(cube)),
        spec_cube_of(corners_of_cube(cube), edges_of_cube(cube)) == cube,
{
    lemma_indices_of_corners(cube.c_prm as int, cube.c_ori as int);
    lemma_indices_of_edges(
        cube.e_slice_prm as int,
        cube.e_non_slice_prm as int,
        cube.e_slice_loc as int,
        cube.e_ori as int,
    );
}

/// A turn followed by the turn that undoes it leaves the cube as it was.
pub proof fn lemma_cube_twist_then_inverse(cube: Cube, t: Twist)
    requires
        cube.well_formed(),
    ensures
        cube.spec_twisted(t).well_formed(),
        cube.spec_twisted(t).spec_twisted(spec_inversed(t)) == cube,
{
    let c = corners_of_cube(cube);
    let e = edges_of_cube(cube);
    lemma_cubies_of_cube(cube);
    lemma_cube_follows_cubies(c, e, t);
    lemma_cube_follows_cubies(c.spec_twisted(t), e.spec_twisted(t), spec_inversed(t));
    lemma_corners_twist_then_inverse(c, t);
    lemma_edges_twist_then_inverse(e, t);
}

/// Four times the same turn leaves the cube as it was.
pub proof fn lemma_cube_twist_four_times(cube: Cube, t: Twist)
    requires
        cube.well_formed(),
    ensures
        cube.spec_twisted(t).spec_twisted(t).spec_twisted(t).spec_twisted(t) == cube,
{
    let c = corners_of_cube(cube);
    let e = edges_of_cube(cube);
    let c1 = c.spec_twisted(t);
    let e1 = e.spec_twisted(t);
    let c2 = c1.spec_twisted(t);
    let e2 = e1.spec_twisted(t);
    let c3 = c2.spec_twisted(t);
    let e3 = e2.spec_twisted(t);
    lemma_cubies_of_cube(cube);
    lemma_cube_follows_cubies(c, e, t);
    lemma_cube_follows_cubies(c1, e1, t);
    lemma_cube_follows_cubies(c2, e2, t);
    lemma_cube_follows_cubies(c3, e3, t);
    lemma_corners_twist_four_times(c, t);
    lemma_edges_twist_four_times(e, t);
}

/// Turns of two opposite faces can be made in either order.
pub proof fn lemma_cube_opposite_faces_commute(cube: Cube, a: Twist, b: Twist)
    requires
        cube.well_formed(),
        a.spec_face() / 2 == b.spec_face() / 2,
        a.spec_face() != b.spec_face(),
    ensures
        cube.spec_twisted(a).spec_twisted(b) == cube.spec_twisted(b).spec_twisted(a),
{
    let c = corners_of_cube(cube);
    let e = edges_of_cube(cube);
    lemma_cubies_of_cube(cube);
    lemma_cube_follows_cubies(c, e, a);
    lemma_cube_follows_cubies(c, e, b);
    lemma_cube_follows_cubies(c.spec_twisted(a), e.spec_twisted(a), b);
    lemma_cube_follows_cubies(c.spec_twisted(b), e.spec_twisted(b), a);
    lemma_corners_opposite_faces_commute(c, a, b);
    lemma_edges_opposite_faces_commute(e, a, b);
}

/// A turn followed by the turn that undoes it leaves the coset as it was.
pub proof fn lemma_coset_twist_then_inverse(coset: CosetCube, t: Twist)
    requires
        coset.well_formed(),
    ensures
        coset.spec_twisted(t).well_formed(),
        coset.spec_twisted(t).spec_twisted(spec_inversed(t)) == coset,
{
    let cube = Cube {
        c_prm: 0,
        c_ori: coset.c_ori,
        e_non_slice_prm: 0,
        e_slice_prm: 0,
        e_slice_loc: coset.e_slice_loc,
        e_ori: coset.e_ori,
    };
    lemma_cube_twist_then_inverse(cube, t);
    assert(cube.spec_twisted(t).spec_coset() == coset.spec_twisted(t));
    assert(cube.spec_twisted(t).spec_twisted(spec_inversed(t)).spec_coset() == coset.spec_twisted(
        t,
    ).spec_twisted(spec_inversed(t)));
}

/// In the space of the cosets a turn and then its inverse lead back.
pub proof fn lemma_coset_step_back(space: CosetSpace, i: usize, t: Twist)
    requires
        i < 2217093120,
        2217093120 <= usize::MAX,
    ensures
        space.spec_step(space.spec_step(i, t), spec_inversed(t)) == i,
{
    let coset = CosetCube::spec_from_index(i as int);
    lemma_coset_index_round_trip(coset, i as int);
    lemma_coset_twist_then_inverse(coset, t);
    lemma_coset_index_round_trip(coset.spec_twisted(t), i as int);
}

/// In the space of the cosets every turn of a set that holds the inverse of
/// each of its turns can be undone.
pub proof fn lemma_coset_turns_undone(space: CosetSpace, twists: Twists)
    requires
        2217093120 <= usize::MAX,
        forall|t: Twist| twists.spec_contains(t) ==> twists.spec_contains(spec_inversed(t)),
    ensures
        is_reversible(space, twists),
{
    assert forall|i: usize, t: Twist|
        i < space.spec_size() && twists.spec_contains(t) implies space.spec_step(
        #[trigger] space.spec_step(i, t),
        spec_inversed(t),
    ) == i by {
        lemma_coset_step_back(space, i, t);
    }
}

/// Every place that holds a slice cubie is among the places of the slice
/// cubies.
proof fn lemma_slice_place_is_listed(p: Seq<u8>, i: int)
    requires
        0 <= i < p.len() <= 256,
        p[i] > 7,
    ensures
        exists|w: int| 0 <= w < spec_slice_places(p).len() && spec_slice_places(p)[w] == i,
    decreases p.len(),
{
    let q = p.drop_last();
    let r = spec_slice_places(q);
    if i == p.len() - 1 {
        assert(spec_slice_places(p) == r.push(i as u8));
        assert(spec_slice_places(p)[r.len() as int] == i);
    } else {
        lemma_slice_place_is_listed(q, i);
        let w = choose|w: int| 0 <= w < r.len() && r[w] == i;
        assert(spec_slice_places(p)[w] == i);
    }
}

/// The slice cubies stand in their slice exactly where the index of their
/// places is 494.
pub proof fn lemma_slice_in_place(e: Edges)
    requires
        e.well_formed(),
    ensures
        slice_in_place(e) <==> e.spec_slice_loc_index() == 494,
{
    let p = e.spec_cubies();
    let places = spec_slice_places(p);
    let last = Seq::new(4, |i: int| (i + 8) as u8);
    e.lemma_cubies_permutation();
    lemma_parts_of_permutation(p);
    lemma_slice_places(p);
    lemma_rank_of_last_places();
    lemma_cubies_of_indices(e);
    if slice_in_place(e) {
        assert forall|a: int| 0 <= a < 4 implies #[trigger] places[a] >= 8 by {
            assert(p[places[a] as int] == e.spec_cubie(places[a] as int));
        }
        assert(places[0] < places[1] && places[1] < places[2] && places[2] < places[3]);
        assert(places =~= last);
    }
    if e.spec_slice_loc_index() == 494 {
        lemma_combination_of_rank(12, last);
        assert(places == last);
        assert forall|i: int| 0 <= i < 12 implies (#[trigger] e.spec_cubie(i) >= 8) == (i >= 8) by {
            assert(p[i] == e.spec_cubie(i));
            if i >= 8 {
                assert(places[i - 8] == i);
                assert(p[places[i - 8] as int] > 7);
            }
            if p[i] > 7 {
                lemma_slice_place_is_listed(p, i);
                let w = choose|w: int| 0 <= w < places.len() && places[w] == i;
                assert(last[w] == i);
            }
        }
    }
}

/// The cube of a state of the subgroup: no cubie is turned, and the slice
/// edges stand in their slice.
pub open spec fn cube_of_subset(s: SubsetCube) -> Cube {
    Cube {
        c_prm: s.c_prm,
        c_ori: 0,
        e_non_slice_prm: s.e_non_slice_prm,
        e_slice_prm: s.e_slice_prm,
        e_slice_loc: 494,
        e_ori: 0,
    }
}

/// Whether `t` is a turn of H0: a half turn, or a turn of the upper or the
/// lower face.
pub open spec fn is_h0(t: Twist) -> bool {
    t.spec_quarter_turns() == 2 || t.spec_face() == 2 || t.spec_face() == 3
}

/// A turn of H0 leaves the slice edges of a state of the subgroup in their
/// slice, keeps the state well formed, and is undone by its inverse.
pub proof fn lemma_subset_turn(s: SubsetCube, t: Twist)
    requires
        s.in_range(),
        is_h0(t),
    ensures
        is_h0(spec_inversed(t)),
        s.spec_twisted(t).in_range(),
        cube_of_subset(s).spec_twisted(t).e_slice_loc == 494,
        cube_of_subset(s).spec_twisted(t).spec_subset() == s.spec_twisted(t),
        s.well_formed() ==> s.spec_twisted(t).well_formed(),
        s.spec_twisted(t).spec_twisted(spec_inversed(t)) == s,
{
    let cube = cube_of_subset(s);
    let c = corners_of_cube(cube);
    let e = edges_of_cube(cube);
    lemma_cubies_of_cube(cube);
    lemma_indices_of_corners(s.c_prm as int, 0);
    lemma_indices_of_edges(s.e_slice_prm as int, s.e_non_slice_prm as int, 494, 0);
    lemma_slice_in_place(e);
    lemma_h0_keeps_slice_in_place(e, t);
    lemma_cube_follows_cubies(c, e, t);
    let c1 = c.spec_twisted(t);
    let e1 = e.spec_twisted(t);
    lemma_slice_in_place(e1);
    lemma_cube_twist_then_inverse(cube, t);
    lemma_turn_keeps_parities_together(c, e, t);
    lemma_edge_parity_in_the_subgroup(e);
    lemma_edge_parity_in_the_subgroup(e1);
    lemma_digit_sum_of_rank(c.spec_cubies());
    lemma_digit_sum_of_rank(c1.spec_cubies());
    lemma_corners_of_indices(c1);
    lemma_edges_of_indices(e1);
    let s1 = s.spec_twisted(t);
    assert(s1.c_prm == c1.spec_prm_index());
    assert(s1.e_slice_prm == e1.spec_slice_prm_index());
    assert(s1.e_non_slice_prm == e1.spec_non_slice_prm_index());
    assert(corners_even(c) == spec_is_even(s.c_prm as int));
    assert(edges_even(e) == (spec_is_even(s.e_non_slice_prm as int) == spec_is_even(
        s.e_slice_prm as int,
    )));
    assert(corners_even(c1) == spec_is_even(s1.c_prm as int));
    assert(edges_even(e1) == (spec_is_even(s1.e_non_slice_prm as int) == spec_is_even(
        s1.e_slice_prm as int,
    )));
}

/// In the space of the subgroup a turn of H0 and then its inverse lead back.
pub proof fn lemma_subset_step_back(space: SubsetSpace, i: usize, t: Twist)
    requires
        i < 19508428800,
        19508428800 <= usize::MAX,
        is_h0(t),
    ensures
        space.spec_step(space.spec_step(i, t), spec_inversed(t)) == i,
{
    let s = SubsetCube::spec_from_index(i as int);
    lemma_subset_index_round_trip(SubsetCube { e_slice_prm: 0, e_non_slice_prm: 0, c_prm: 0 }, i as int);
    lemma_subset_index_round_trip(s, i as int);
    lemma_subset_turn(s, t);
    lemma_subset_index_round_trip(s.spec_twisted(t), i as int);
}

/// In the space of the subgroup every turn of H0 can be undone by a turn of
/// H0.
pub proof fn lemma_subset_turns_undone(space: SubsetSpace, twists: Twists)
    requires
        19508428800 <= usize::MAX,
        forall|t: Twist| twists.spec_contains(t) <==> is_h0(t),
    ensures
        is_reversible(space, twists),
{
    assert forall|t: Twist| twists.spec_contains(t) implies twists.spec_contains(spec_inversed(t)) by {
        lemma_subset_turn(SubsetCube { e_slice_prm: 0, e_non_slice_prm: 0, c_prm: 0 }, t);
    }
    assert forall|i: usize, t: Twist|
        i < space.spec_size() && twists.spec_contains(t) implies space.spec_step(
        #[trigger] space.spec_step(i, t),
        spec_inversed(t),
    ) == i by {
        lemma_subset_step_back(space, i, t);
    }
}

} // verus!
