//! The three spaces that the pruning tables of the solver are made over: the
//! states of the corners, the cosets of the subgroup, and the states within
//! the subgroup.

use crate::corners::{
    lemma_corner_index_bounds, lemma_corner_state_of, lemma_corners_twist_then_inverse,
    lemma_corners_twisted_state, lemma_twisted_state_ok, Corners,
};
use crate::cube::{CosetCube, SubsetCube};
use crate::tables::StateSpace;
use crate::twist::{spec_inversed, Twist, Twistable};
use crate::consistency::{
    lemma_corner_orientation_follows, lemma_corner_permutation_follows, lemma_corners_of_indices,
    lemma_indices_of_corners, lemma_turn_keeps_balance,
};
use vstd::arithmetic::div_mod::lemma_fundamental_div_mod_converse;
use crate::twister::{
    corner_orientation_twister, corner_permutation_twister, spec_twisted_c_ori,
    spec_twisted_c_prm, AllTwister, Twister,
};
use vstd::prelude::*;

verus! {

/// The space of the states of the corners: state `i` has the permutation index
/// `i / 2187` and the orientation index `i % 2187`, and the steps are the turns
/// of the cubies.
pub struct CornerSpace {}

impl StateSpace for CornerSpace {
    open spec fn well_formed(&self) -> bool {
        88179840 <= usize::MAX
    }

    open spec fn spec_size(&self) -> nat {
        88179840
    }

    open spec fn spec_step(&self, i: usize, t: Twist) -> usize {
        let c = Corners::spec_from_index(i as int / 2187, i as int % 2187).spec_twisted(t);
        (c.spec_prm_index() * 2187 + c.spec_ori_index()) as usize
    }

    proof fn lemma_step_in_range(&self, i: usize, t: Twist) {
        lemma_corner_state_of(i as int / 2187, i as int % 2187);
        lemma_corner_index_bounds(Corners::spec_from_index(i as int / 2187, i as int % 2187), t);
    }

    fn size(&self) -> (n: usize) {
        Corners::INDEX_SIZE as usize
    }

    fn step(&self, i: usize, t: Twist) -> (j: usize) {
        Corners::from_combined_index(i as u32).twisted(t).index() as usize
    }
}

/// The state of the corners with the number `i`.
pub open spec fn corners_of(i: usize) -> Corners {
    Corners::spec_from_index(i as int / 2187, i as int % 2187)
}

/// The number of a state of the corners.
pub open spec fn number_of(c: Corners) -> int {
    c.spec_prm_index() * 2187 + c.spec_ori_index()
}

/// The state that a turn leads to from the state with the number `i` has the
/// number that the step gives.
proof fn lemma_corners_of_step(i: usize, t: Twist)
    requires
        i < 88179840,
    ensures
        corners_of(i).well_formed(),
        0 <= number_of(corners_of(i).spec_twisted(t)) < 88179840,
        number_of(corners_of(i)) == i,
        (CornerSpace {  }).spec_step(i, t) == number_of(corners_of(i).spec_twisted(t)),
        88179840 <= usize::MAX ==> corners_of((CornerSpace {  }).spec_step(i, t)) == corners_of(
            i,
        ).spec_twisted(t),
{
    let prm = i as int / 2187;
    let ori = i as int % 2187;
    let c = corners_of(i);
    lemma_indices_of_corners(prm, ori);
    let n = c.spec_twisted(t);
    lemma_corners_twisted_state(c, t);
    lemma_twisted_state_ok(c.spec_state(), t);
    lemma_turn_keeps_balance(c.spec_state(), t);
    lemma_corner_index_bounds(c, t);
    assert(n.well_formed());
    lemma_corners_of_indices(n);
    let p = n.spec_prm_index() as int;
    let o = n.spec_ori_index();
    lemma_fundamental_div_mod_converse(number_of(n), 2187, p, o);
    assert(number_of(n) < 88179840) by (nonlinear_arith)
        requires
            number_of(n) == p * 2187 + o,
            0 <= p < 40320,
            0 <= o < 2187,
    ;
}

/// In the space of the corners a turn and then its inverse lead back.
pub proof fn lemma_corner_step_back(i: usize, t: Twist)
    requires
        i < 88179840,
        88179840 <= usize::MAX,
    ensures
        (CornerSpace {  }).spec_step((CornerSpace {  }).spec_step(i, t), spec_inversed(t)) == i,
{
    let j = (CornerSpace {  }).spec_step(i, t);
    lemma_corners_of_step(i, t);
    lemma_corners_of_step(j, spec_inversed(t));
    lemma_corners_twist_then_inverse(corners_of(i), t);
}

/// The space of the states of the corners with its steps looked up in the
/// move tables of the two coordinates of the corners.
pub struct CornerLookup {
    c_prm: Twister,
    c_ori: Twister,
}

impl CornerLookup {
    /// Works out the two move tables.
    pub fn new() -> (r: Self)
        requires
            88179840 <= usize::MAX,
        ensures
            r.well_formed(),
    {
        Self { c_prm: corner_permutation_twister(), c_ori: corner_orientation_twister() }
    }
}

impl StateSpace for CornerLookup {
    closed spec fn well_formed(&self) -> bool {
        &&& 88179840 <= usize::MAX
        &&& self.c_prm.spec_rows() == 40320
        &&& self.c_ori.spec_rows() == 2187
        &&& forall|i: int, t: Twist|
            0 <= i < 40320 ==> #[trigger] self.c_prm.spec_get(i, t) == spec_twisted_c_prm(i, t)
                && self.c_prm.spec_get(i, t) < 40320
        &&& forall|i: int, t: Twist|
            0 <= i < 2187 ==> #[trigger] self.c_ori.spec_get(i, t) == spec_twisted_c_ori(i, t)
                && self.c_ori.spec_get(i, t) < 2187
    }

    open spec fn spec_size(&self) -> nat {
        88179840
    }

    open spec fn spec_step(&self, i: usize, t: Twist) -> usize {
        (CornerSpace {  }).spec_step(i, t)
    }

    proof fn lemma_step_in_range(&self, i: usize, t: Twist) {
        (CornerSpace {  }).lemma_step_in_range(i, t);
    }

    fn size(&self) -> (n: usize) {
        Corners::INDEX_SIZE as usize
    }

    fn step(&self, i: usize, t: Twist) -> (j: usize) {
        let prm = i / Corners::ORI_SIZE as usize;
        let ori = i % Corners::ORI_SIZE as usize;
        proof {
            assert(Corners::ORI_SIZE == 2187);
            assert(prm == i / 2187 && ori == i % 2187);
            assert(prm < 40320 && ori < 2187);
            let c = Corners::spec_from_index(prm as int, ori as int);
            lemma_indices_of_corners(prm as int, ori as int);
            lemma_corner_orientation_follows(c, t);
            lemma_corner_permutation_follows(c, t);
        }
        self.c_prm.get(prm, t) as usize * Corners::ORI_SIZE as usize + self.c_ori.get(ori, t) as usize
    }
}

/// The space of the cosets of the subgroup: state `i` is
/// `CosetCube::from_index(i)`, and the steps go by the move tables.
pub struct CosetSpace<'a> {
    pub twister: &'a AllTwister,
}

impl<'a> StateSpace for CosetSpace<'a> {
    open spec fn well_formed(&self) -> bool {
        self.twister.well_formed() && 2217093120 <= usize::MAX
    }

    open spec fn spec_size(&self) -> nat {
        2217093120
    }

    open spec fn spec_step(&self, i: usize, t: Twist) -> usize {
        CosetCube::spec_from_index(i as int).spec_twisted(t).spec_index() as usize
    }

    proof fn lemma_step_in_range(&self, i: usize, t: Twist) {
        self.twister.lemma_bounds(t);
        let c = CosetCube::spec_from_index(i as int);
        assert(c.well_formed());
        assert(c.spec_twisted(t).well_formed());
    }

    fn size(&self) -> (n: usize) {
        CosetCube::INDEX_SIZE as usize
    }

    fn step(&self, i: usize, t: Twist) -> (j: usize) {
        CosetCube::from_index(i as u32).twisted(self.twister, t).index() as usize
    }
}

/// The space of the states within the subgroup: state `i` is
/// `SubsetCube::from_index(i)`, and the steps go by the move tables, with the
/// slice edges in their slice.
pub struct SubsetSpace<'a> {
    pub twister: &'a AllTwister,
}

impl<'a> StateSpace for SubsetSpace<'a> {
    open spec fn well_formed(&self) -> bool {
        self.twister.well_formed() && 19508428800 <= usize::MAX
    }

    open spec fn spec_size(&self) -> nat {
        19508428800
    }

    open spec fn spec_step(&self, i: usize, t: Twist) -> usize {
        let n = SubsetCube::spec_from_index(i as int).spec_twisted(t).spec_index();
        if n < 19508428800 {
            n as usize
        } else {
            0
        }
    }

    proof fn lemma_step_in_range(&self, i: usize, t: Twist) {
    }

    fn size(&self) -> (n: usize) {
        SubsetCube::INDEX_SIZE as usize
    }

    fn step(&self, i: usize, t: Twist) -> (j: usize) {
        proof {
            self.twister.lemma_bounds(t);
        }
        SubsetCube::from_index(i as u64).twisted(self.twister, t).index() as usize
    }
}

} // verus!
