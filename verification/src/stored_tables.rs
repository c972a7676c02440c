//! The three pruning tables of the solver: how each one is made, and the
//! numbers of states at each distance by which a stored table is known to be
//! the right one.

use crate::corners::Corners;
use crate::cube::{CosetCube, SubsetCube};
use crate::spaces::{lemma_corner_step_back, CornerLookup, CornerSpace, CosetSpace, SubsetSpace};
use crate::tables::{
    count_of, distances_of, is_directions_table, is_distance_table, is_reversible,
    lemma_distance_table_by_steps, DirectionsTable, DistanceTable, StateSpace,
};
use crate::turns::{lemma_coset_turns_undone, lemma_subset_turns_undone};
use crate::twist::{spec_inversed, Twist, Twists};
use crate::twister::AllTwister;
use vstd::prelude::*;

verus! {

/// The number of states of the corners at each distance, from 0 to 11.
pub const CORNERS_HISTOGRAM: [u64; 12] = [
    1,
    18,
    243,
    2874,
    28000,
    205416,
    1168516,
    5402628,
    20776176,
    45391616,
    15139616,
    64736,
];

/// The number of states of the subgroup at each distance in turns of H0, from
/// 0 to 18.
pub const SUBSET_HISTOGRAM: [u64; 19] = [
    1,
    10,
    67,
    456,
    3079,
    19948,
    123074,
    736850,
    4185118,
    22630733,
    116767872,
    552538680,
    2176344160,
    5627785188,
    7172925794,
    3608731814,
    224058996,
    1575608,
    1352,
];

/// The number of cosets of the subgroup at each distance, from 0 to 12.
pub const COSET_HISTOGRAM: [u64; 13] = [
    1,
    4,
    50,
    592,
    7156,
    87236,
    1043817,
    12070278,
    124946368,
    821605960,
    1199128738,
    58202444,
    476,
];

/// Whether `counts` holds exactly the numbers `expected`.
fn same_counts(counts: &Vec<u64>, expected: &[u64]) -> (r: bool)
    ensures
        r == (counts@ == expected@),
{
    if counts.len() != expected.len() {
        return false;
    }
    for i in 0..counts.len()
        invariant
            counts@.len() == expected@.len(),
            forall|j: int| 0 <= j < i ==> counts@[j] == expected@[j],
    {
        if counts[i] != expected[i] {
            return false;
        }
    }
    proof {
        assert(counts@ =~= expected@);
    }
    true
}

/// Whether the greatest distance is `expected.len() - 1` and the number of
/// entries at each distance is the one that `expected` gives.
pub open spec fn has_histogram(entries: Seq<u8>, max_distance: u8, expected: Seq<u64>) -> bool {
    &&& expected.len() == max_distance + 1
    &&& forall|d: int| 0 <= d <= max_distance ==> count_of(entries, d) == #[trigger] expected[d]
}

/// Whether the table has the numbers of states at each distance that the
/// table of the corners has.
pub fn is_corners_table(table: &DistanceTable) -> (r: bool)
    requires
        table.well_formed(),
    ensures
        r == has_histogram(table@, table.spec_max_distance(), CORNERS_HISTOGRAM@),
{
    let counts = table.histogram();
    let r = same_counts(&counts, CORNERS_HISTOGRAM.as_slice());
    proof {
        if has_histogram(table@, table.spec_max_distance(), CORNERS_HISTOGRAM@) {
            assert(counts@ =~= CORNERS_HISTOGRAM@);
        }
    }
    r
}

/// Whether the table has the numbers of states at each distance that the
/// table of the second phase has.
pub fn is_subset_table(table: &DistanceTable) -> (r: bool)
    requires
        table.well_formed(),
    ensures
        r == has_histogram(table@, table.spec_max_distance(), SUBSET_HISTOGRAM@),
{
    let counts = table.histogram();
    let r = same_counts(&counts, SUBSET_HISTOGRAM.as_slice());
    proof {
        if has_histogram(table@, table.spec_max_distance(), SUBSET_HISTOGRAM@) {
            assert(counts@ =~= SUBSET_HISTOGRAM@);
        }
    }
    r
}

/// Whether the table has the numbers of states at each distance that the
/// table of the first phase has.
pub fn is_coset_table(table: &DirectionsTable) -> (r: bool)
    requires
        table.well_formed(),
    ensures
        r == has_histogram(distances_of(table@), table.spec_max_distance(), COSET_HISTOGRAM@),
{
    let counts = table.histogram();
    let r = same_counts(&counts, COSET_HISTOGRAM.as_slice());
    proof {
        if has_histogram(distances_of(table@), table.spec_max_distance(), COSET_HISTOGRAM@) {
            assert(counts@ =~= COSET_HISTOGRAM@);
        }
    }
    r
}

/// Every turn of the corners is undone by its inverse.
proof fn lemma_corner_turns_undone(space: CornerLookup, twists: Twists)
    requires
        forall|t: Twist| twists.spec_contains(t),
    ensures
        is_reversible(space, twists),
{
    assert forall|i: usize, t: Twist|
        i < space.spec_size() && twists.spec_contains(t) implies space.spec_step(
        #[trigger] space.spec_step(i, t),
        spec_inversed(t),
    ) == i by {
        lemma_corner_step_back(i, t);
    }
}

/// The table of the distances of all states of the corners from the solved
/// corners, in turns of any face.
pub fn corners_distance_table() -> (table: DistanceTable)
    requires
        88179840 <= usize::MAX,
    ensures
        table.well_formed(),
        is_distance_table(table@, (CornerSpace {  }), Twists::spec_all(), 0),
{
    let origin = Corners::solved().index() as usize;
    let space = CornerLookup::new();
    let twists = Twists::all();
    proof {
        lemma_corner_turns_undone(space, twists);
    }
    let table = DistanceTable::create_in_reversible(&space, twists, origin);
    proof {
        lemma_distance_table_by_steps(table@, space, (CornerSpace {  }), Twists::spec_all(), 0);
    }
    table
}

/// The table of the distances of all states of the subgroup from the solved
/// cube, in turns of H0.
pub fn subset_distance_table(twister: &AllTwister) -> (table: DistanceTable)
    requires
        twister.well_formed(),
        19508428800 <= usize::MAX,
    ensures
        table.well_formed(),
        is_distance_table(table@, (SubsetSpace { twister }), Twists::spec_h0(), 0),
{
    let origin = SubsetCube::solved().index() as usize;
    let space = SubsetSpace { twister };
    let twists = Twists::h0();
    proof {
        lemma_subset_turns_undone(space, twists);
    }
    DistanceTable::create_in_reversible(&space, twists, origin)
}

/// The table of the distances of all cosets of the subgroup from the subgroup
/// itself, in turns of any face, with the turns that change the distance.
pub fn coset_direction_table(twister: &AllTwister) -> (table: DirectionsTable)
    requires
        twister.well_formed(),
        2217093120 <= usize::MAX,
    ensures
        table.well_formed(),
        is_distance_table(distances_of(table@), (CosetSpace { twister }), Twists::spec_all(), 494),
        is_directions_table(table@, (CosetSpace { twister }), Twists::spec_all()),
{
    let origin = CosetCube::solved().index() as usize;
    let space = CosetSpace { twister };
    let twists = Twists::all();
    proof {
        lemma_coset_turns_undone(space, twists);
    }
    DirectionsTable::create_in_reversible(&space, twists, origin)
}

} // verus!
