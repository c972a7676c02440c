//! The cube as numbers: the coordinates that the two phases of the search work
//! on, each with its place in a dense range.

use crate::corners::Corners;
use crate::edges::Edges;
use crate::math::{is_even_permutation, lemma_parity_of_neighbours, spec_is_even};
use crate::text::{
    coset_cube_line, cube_line, spec_coset_cube_line, spec_cube_line, spec_subset_cube_line,
    subset_cube_line,
};
use crate::turns::{is_h0, lemma_subset_turn};
use crate::twist::Twist;
use crate::twister::{
    spec_twisted_c_ori, spec_twisted_c_prm, spec_twisted_e_non_slice_prm, spec_twisted_e_ori,
    spec_twisted_e_slice_loc, spec_twisted_e_slice_prm, AllTwister,
};
use vstd::prelude::*;

verus! {

/// The corners alone: their permutation and their orientation.
#[derive(Debug, Clone, Copy, PartialEq, Eq, PartialOrd, Ord, Structural)]
pub struct CornersCube {
    pub prm: u16,  // 0..=40'319
    pub ori: u16,  // 0..=2'186
}

/// What the second phase works on: the permutations of the corners, of the
/// eight edges outside the middle slice and of the four edges in it.
#[derive(Debug, Clone, Copy, PartialEq, Eq, PartialOrd, Ord, Structural)]
pub struct SubsetCube {
    pub e_slice_prm: u8,  // 0..=23
    pub e_non_slice_prm: u16,  // 0..=40'319
    pub c_prm: u16,  // 0..=40'319
}

/// What the first phase works on: the orientations of the corners and of the
/// edges, and the places of the four edges of the middle slice.
#[derive(Debug, Clone, Copy, PartialEq, Eq, PartialOrd, Ord, Structural)]
pub struct CosetCube {
    pub c_ori: u16,  // 0..=2'186
    pub e_ori: u16,  // 0..=2'047
    pub e_slice_loc: u16,  // 0..=494
}

/// The whole cube as six coordinates.
#[derive(Debug, Clone, Copy, PartialEq, Eq, PartialOrd, Ord, Structural)]
pub struct Cube {
    pub c_prm: u16,  // 0..=40'319
    pub c_ori: u16,  // 0..=2'186
    pub e_non_slice_prm: u16,  // 0..=40'319
    pub e_slice_prm: u8,  // 0..=23
    pub e_slice_loc: u16,  // 0..=494
    pub e_ori: u16,  // 0..=2'047
}

/// The index of the places of the slice edges where they stand in their slice.
pub const SOLVED_SLICE_LOC: u16 = 494;

impl CornersCube {
    /// The number of states: 40320 * 2187.
    pub const INDEX_SIZE: u32 = 88179840;

    /// Whether each coordinate is within its range.
    pub open spec fn well_formed(&self) -> bool {
        &&& self.prm < 40320
        &&& self.ori < 2187
    }

    /// The place of the state in the dense range.
    pub open spec fn spec_index(&self) -> int {
        self.prm * 2187 + self.ori
    }

    /// The state at place `index`.
    pub open spec fn spec_from_index(index: int) -> CornersCube {
        CornersCube { prm: (index / 2187) as u16, ori: (index % 2187) as u16 }
    }

    /// The state after the turn `t`.
    pub open spec fn spec_twisted(&self, t: Twist) -> CornersCube {
        CornersCube {
            prm: spec_twisted_c_prm(self.prm as int, t) as u16,
            ori: spec_twisted_c_ori(self.ori as int, t) as u16,
        }
    }

    pub fn solved() -> (r: Self)
        ensures
            r == (CornersCube { prm: 0, ori: 0 }),
            r.well_formed(),
    {
        let c = Corners::solved();
        Self { prm: c.prm_index(), ori: c.ori_index() }
    }

    pub fn is_solved(&self) -> (r: bool)
        ensures
            r == (*self == (CornersCube { prm: 0, ori: 0 })),
    {
        *self == Self::solved()
    }

    /// The place of the state in the dense range.
    pub fn index(&self) -> (r: u32)
        requires
            self.well_formed(),
        ensures
            r == self.spec_index(),
            r < 88179840,
    {
        self.prm as u32 * Corners::ORI_SIZE as u32 + self.ori as u32
    }

    /// The state at place `index`.
    pub fn from_index(index: u32) -> (r: Self)
        requires
            index < 88179840,
        ensures
            r == CornersCube::spec_from_index(index as int),
            r.well_formed(),
            r.spec_index() == index,
    {
        Self {
            prm: (index / Corners::ORI_SIZE as u32) as u16,
            ori: (index % Corners::ORI_SIZE as u32) as u16,
        }
    }

    /// The state after `twist`, by two lookups in the move tables.
    pub fn twisted(&self, twister: &AllTwister, twist: Twist) -> (r: Self)
        requires
            twister.well_formed(),
            self.well_formed(),
        ensures
            r == self.spec_twisted(twist),
            r.well_formed(),
    {
        Self {
            prm: twister.twisted_c_prm(self.prm, twist),
            ori: twister.twisted_c_ori(self.ori, twist),
        }
    }
}

/// Going to the place of a state and back gives the state, and going to the
/// state at a place and back gives the place.
pub proof fn lemma_corners_index_round_trip(c: CornersCube, index: int)
    requires
        c.well_formed(),
        0 <= index < 88179840,
    ensures
        0 <= c.spec_index() < 88179840,
        CornersCube::spec_from_index(c.spec_index()) == c,
        CornersCube::spec_from_index(index).well_formed(),
        CornersCube::spec_from_index(index).spec_index() == index,
{
}

impl SubsetCube {
    /// The number of states: half of 24 * 40320 * 40320, because the
    /// permutation of the corners is even exactly where that of the edges is.
    pub const INDEX_SIZE: u64 = 19508428800;

    /// Whether each coordinate is within its range.
    pub open spec fn in_range(&self) -> bool {
        &&& self.e_slice_prm < 24
        &&& self.e_non_slice_prm < 40320
        &&& self.c_prm < 40320
    }

    /// Whether each coordinate is within its range and the permutation of the
    /// corners is even exactly where that of the edges is.
    pub open spec fn well_formed(&self) -> bool {
        &&& self.in_range()
        &&& spec_is_even(self.c_prm as int) == (spec_is_even(self.e_non_slice_prm as int)
            == spec_is_even(self.e_slice_prm as int))
    }

    /// The place of the state in the dense range.
    pub open spec fn spec_index(&self) -> int {
        (self.c_prm / 2) * 24 * 40320 + self.e_non_slice_prm * 24 + self.e_slice_prm
    }

    /// The state at place `index`: the corner permutation is the one of the
    /// two with that half whose parity is that of the edges.
    pub open spec fn spec_from_index(index: int) -> SubsetCube {
        let e_slice_prm = index % 24;
        let e_non_slice_prm = (index / 24) % 40320;
        let half = index / 24 / 40320;
        let e_even = spec_is_even(e_non_slice_prm) == spec_is_even(e_slice_prm);
        SubsetCube {
            e_slice_prm: e_slice_prm as u8,
            e_non_slice_prm: e_non_slice_prm as u16,
            c_prm: (if e_even == spec_is_even(2 * half) {
                2 * half
            } else {
                2 * half + 1
            }) as u16,
        }
    }

    /// The state after the turn `t`, where the slice edges stand in their slice.
    pub open spec fn spec_twisted(&self, t: Twist) -> SubsetCube {
        SubsetCube {
            c_prm: spec_twisted_c_prm(self.c_prm as int, t) as u16,
            e_slice_prm: spec_twisted_e_slice_prm(self.e_slice_prm as int, 494, t) as u8,
            e_non_slice_prm: spec_twisted_e_non_slice_prm(self.e_non_slice_prm as int, 494, t) as u16,
        }
    }

    pub fn solved() -> (r: Self)
        ensures
            r == (SubsetCube { e_slice_prm: 0, e_non_slice_prm: 0, c_prm: 0 }),
    {
        let c = Corners::solved();
        let e = Edges::solved();
        Self {
            c_prm: c.prm_index(),
            e_slice_prm: e.slice_prm_index(),
            e_non_slice_prm: e.non_slice_prm_index(),
        }
    }

    pub fn is_solved(&self) -> (r: bool)
        ensures
            r == (*self == (SubsetCube { e_slice_prm: 0, e_non_slice_prm: 0, c_prm: 0 })),
    {
        *self == Self::solved()
    }

    /// The place of the state in the dense range.
    pub fn index(&self) -> (r: u64)
        ensures
            r == self.spec_index(),
            self.in_range() ==> r < 19508428800,
    {
        let slice_prm_size: u64 = Edges::SLICE_PRM_SIZE as u64;
        let non_slice_prm_size: u64 = Edges::NON_SLICE_PRM_SIZE as u64;

        (self.c_prm as u64 / 2) * slice_prm_size * non_slice_prm_size + (self.e_non_slice_prm as u64)
            * slice_prm_size + (self.e_slice_prm as u64)
    }

    /// The state at place `index`.
    pub fn from_index(index: u64) -> (r: Self)
        requires
            index < 19508428800,
        ensures
            r == SubsetCube::spec_from_index(index as int),
            r.well_formed(),
            r.spec_index() == index,
    {
        let slice_prm_size: u64 = Edges::SLICE_PRM_SIZE as u64;
        let non_slice_prm_size: u64 = Edges::NON_SLICE_PRM_SIZE as u64;

        let mut rest = index;
        let e_slice_prm = (rest % slice_prm_size) as u8;
        rest /= slice_prm_size;
        let e_non_slice_prm = (rest % non_slice_prm_size) as u16;
        rest /= non_slice_prm_size;
        let mut c_prm = (rest * 2) as u16;

        let e_even_prm = is_even_permutation(e_non_slice_prm as i64) ^ is_even_permutation(
            e_slice_prm as i64,
        ) ^ true;  // in subset e_slice_loc is an even permutation
        if e_even_prm != is_even_permutation(c_prm as i64) {
            c_prm += 1;
        }
        proof {
            lemma_parity_of_neighbours(rest as int);
        }
        SubsetCube { e_slice_prm, e_non_slice_prm, c_prm }
    }

    /// The state after `twist`, by three lookups in the move tables. A turn
    /// of H0 leads from a well-formed state to a well-formed state.
    pub fn twisted(&self, twister: &AllTwister, twist: Twist) -> (r: Self)
        requires
            twister.well_formed(),
            self.in_range(),
        ensures
            r == self.spec_twisted(twist),
            r.in_range(),
            self.well_formed() && is_h0(twist) ==> r.well_formed(),
    {
        proof {
            if is_h0(twist) {
                lemma_subset_turn(*self, twist);
            }
        }
        let solved_e_slice_loc = Edges::solved().slice_loc_index();
        Self {
            c_prm: twister.twisted_c_prm(self.c_prm, twist),
            e_slice_prm: twister.twisted_e_slice_prm(self.e_slice_prm, solved_e_slice_loc, twist),
            e_non_slice_prm: twister.twisted_e_non_slice_prm(
                self.e_non_slice_prm,
                solved_e_slice_loc,
                twist,
            ),
        }
    }

    /// The name of the type and its three coordinates.
    pub fn to_string(&self) -> (line: String)
        ensures
            line@ == spec_subset_cube_line(self.e_slice_prm, self.e_non_slice_prm, self.c_prm),
    {
        subset_cube_line(self.e_slice_prm, self.e_non_slice_prm, self.c_prm)
    }
}

/// Going to the place of a state and back gives the state, and going to the
/// state at a place and back gives the place.
pub proof fn lemma_subset_index_round_trip(c: SubsetCube, index: int)
    requires
        c.well_formed(),
        0 <= index < 19508428800,
    ensures
        0 <= c.spec_index() < 19508428800,
        SubsetCube::spec_from_index(c.spec_index()) == c,
        SubsetCube::spec_from_index(index).well_formed(),
        SubsetCube::spec_from_index(index).spec_index() == index,
{
    lemma_parity_of_neighbours(c.c_prm as int / 2);
    lemma_parity_of_neighbours(index / 24 / 40320);
}

impl CosetCube {
    /// The number of states: 2187 * 2048 * 495.
    pub const INDEX_SIZE: u32 = 2217093120;

    /// Whether each coordinate is within its range.
    pub open spec fn well_formed(&self) -> bool {
        &&& self.c_ori < 2187
        &&& self.e_ori < 2048
        &&& self.e_slice_loc < 495
    }

    /// The place of the state in the dense range.
    pub open spec fn spec_index(&self) -> int {
        self.c_ori * 1013760 + self.e_ori * 495 + self.e_slice_loc
    }

    /// The state at place `index`.
    pub open spec fn spec_from_index(index: int) -> CosetCube {
        CosetCube {
            c_ori: (index / 495 / 2048) as u16,
            e_ori: ((index / 495) % 2048) as u16,
            e_slice_loc: (index % 495) as u16,
        }
    }

    /// The state after the turn `t`.
    pub open spec fn spec_twisted(&self, t: Twist) -> CosetCube {
        CosetCube {
            c_ori: spec_twisted_c_ori(self.c_ori as int, t) as u16,
            e_ori: spec_twisted_e_ori(self.e_ori as int, t) as u16,
            e_slice_loc: spec_twisted_e_slice_loc(self.e_slice_loc as int, t) as u16,
        }
    }

    pub fn solved() -> (r: Self)
        ensures
            r == (CosetCube { c_ori: 0, e_ori: 0, e_slice_loc: SOLVED_SLICE_LOC }),
            r.well_formed(),
    {
        let c = Corners::solved();
        let e = Edges::solved();
        Self { c_ori: c.ori_index(), e_ori: e.ori_index(), e_slice_loc: e.slice_loc_index() }
    }

    /// Whether the state lies in the subgroup that the second phase works in:
    /// no corner and no edge is turned, and the slice edges are in their slice.
    pub fn in_subset(&self) -> (r: bool)
        ensures
            r == (self.c_ori == 0 && self.e_ori == 0 && self.e_slice_loc == SOLVED_SLICE_LOC),
    {
        *self == Self::solved()
    }

    /// The place of the state in the dense range.
    pub fn index(&self) -> (r: u32)
        requires
            self.well_formed(),
        ensures
            r == self.spec_index(),
            r < 2217093120,
    {
        let e_ori_size: u32 = Edges::ORI_SIZE as u32;
        let slice_loc_size: u32 = Edges::SLICE_LOC_SIZE as u32;
        assert(e_ori_size * slice_loc_size == 1013760) by (nonlinear_arith)
            requires
                e_ori_size == 2048,
                slice_loc_size == 495,
        ;
        assert(self.c_ori * (e_ori_size * slice_loc_size) <= 2186 * 1013760) by (nonlinear_arith)
            requires
                self.c_ori <= 2186,
                e_ori_size * slice_loc_size == 1013760,
        ;
        assert(self.c_ori * (e_ori_size * slice_loc_size) == self.c_ori * 1013760)
            by (nonlinear_arith)
            requires
                e_ori_size * slice_loc_size == 1013760,
        ;

        (self.c_ori as u32) * (e_ori_size * slice_loc_size) + (self.e_ori as u32) * slice_loc_size + (
        self.e_slice_loc as u32)
    }

    /// The state at place `index`.
    pub fn from_index(index: u32) -> (r: Self)
        ensures
            r == CosetCube::spec_from_index(index as int),
            index < 2217093120 ==> r.well_formed() && r.spec_index() == index,
    {
        let e_ori_size: u32 = Edges::ORI_SIZE as u32;
        let slice_loc_size: u32 = Edges::SLICE_LOC_SIZE as u32;

        let mut rest = index;
        let e_slice_loc = (rest % slice_loc_size) as u16;
        rest /= slice_loc_size;
        let e_ori = (rest % e_ori_size) as u16;
        rest /= e_ori_size;
        let c_ori = rest as u16;

        CosetCube { c_ori, e_ori, e_slice_loc }
    }

    /// The state after `twist`, by three lookups in the move tables.
    pub fn twisted(&self, twister: &AllTwister, twist: Twist) -> (r: Self)
        requires
            twister.well_formed(),
            self.well_formed(),
        ensures
            r == self.spec_twisted(twist),
            r.well_formed(),
    {
        Self {
            c_ori: twister.twisted_c_ori(self.c_ori, twist),
            e_ori: twister.twisted_e_ori(self.e_ori, twist),
            e_slice_loc: twister.twisted_e_slice_loc(self.e_slice_loc, twist),
        }
    }

    /// The name of the type and its three coordinates.
    pub fn to_string(&self) -> (line: String)
        ensures
            line@ == spec_coset_cube_line(self.c_ori, self.e_ori, self.e_slice_loc),
    {
        coset_cube_line(self.c_ori, self.e_ori, self.e_slice_loc)
    }
}

/// Going to the place of a state and back gives the state, and going to the
/// state at a place and back gives the place.
pub proof fn lemma_coset_index_round_trip(c: CosetCube, index: int)
    requires
        c.well_formed(),
        0 <= index < 2217093120,
    ensures
        0 <= c.spec_index() < 2217093120,
        CosetCube::spec_from_index(c.spec_index()) == c,
        CosetCube::spec_from_index(index).well_formed(),
        CosetCube::spec_from_index(index).spec_index() == index,
{
}

impl Cube {
    /// Whether each coordinate is within its range.
    pub open spec fn well_formed(&self) -> bool {
        &&& self.c_prm < 40320
        &&& self.c_ori < 2187
        &&& self.e_non_slice_prm < 40320
        &&& self.e_slice_prm < 24
        &&& self.e_slice_loc < 495
        &&& self.e_ori < 2048
    }

    /// The solved cube.
    pub open spec fn spec_solved() -> Cube {
        Cube {
            c_prm: 0,
            c_ori: 0,
            e_non_slice_prm: 0,
            e_slice_prm: 0,
            e_slice_loc: SOLVED_SLICE_LOC,
            e_ori: 0,
        }
    }

    /// The three coordinates of the second phase.
    pub open spec fn spec_subset(&self) -> SubsetCube {
        SubsetCube {
            c_prm: self.c_prm,
            e_slice_prm: self.e_slice_prm,
            e_non_slice_prm: self.e_non_slice_prm,
        }
    }

    /// The three coordinates of the first phase.
    pub open spec fn spec_coset(&self) -> CosetCube {
        CosetCube { c_ori: self.c_ori, e_ori: self.e_ori, e_slice_loc: self.e_slice_loc }
    }

    /// The place of the corners among all states of the corners.
    pub open spec fn spec_corners_index(&self) -> int {
        self.c_prm * 2187 + self.c_ori
    }

    /// The cube after the turn `t`: each coordinate goes by its move table,
    /// and the two permutations of the edges by the places that the slice
    /// edges have before the turn.
    pub open spec fn spec_twisted(&self, t: Twist) -> Cube {
        Cube {
            c_prm: spec_twisted_c_prm(self.c_prm as int, t) as u16,
            c_ori: spec_twisted_c_ori(self.c_ori as int, t) as u16,
            e_non_slice_prm: spec_twisted_e_non_slice_prm(
                self.e_non_slice_prm as int,
                self.e_slice_loc as int,
                t,
            ) as u16,
            e_slice_prm: spec_twisted_e_slice_prm(
                self.e_slice_prm as int,
                self.e_slice_loc as int,
                t,
            ) as u8,
            e_slice_loc: spec_twisted_e_slice_loc(self.e_slice_loc as int, t) as u16,
            e_ori: spec_twisted_e_ori(self.e_ori as int, t) as u16,
        }
    }

    /// The cube after the turns `twists`, one after the other.
    pub open spec fn spec_twisted_by(&self, twists: Seq<Twist>) -> Cube
        decreases twists.len(),
    {
        if twists.len() == 0 {
            *self
        } else {
            self.spec_twisted(twists[0]).spec_twisted_by(twists.skip(1))
        }
    }

    pub fn solved() -> (r: Self)
        ensures
            r == Cube::spec_solved(),
            r.well_formed(),
    {
        let c = Corners::solved();
        let e = Edges::solved();
        Self {
            c_ori: c.ori_index(),
            c_prm: c.prm_index(),
            e_non_slice_prm: e.non_slice_prm_index(),
            e_slice_prm: e.slice_prm_index(),
            e_slice_loc: e.slice_loc_index(),
            e_ori: e.ori_index(),
        }
    }

    pub fn is_solved(&self) -> (r: bool)
        ensures
            r == (*self == Cube::spec_solved()),
    {
        *self == Self::solved()
    }

    /// Whether the cube lies in the subgroup that the second phase works in.
    pub fn in_subset(&self) -> (r: bool)
        ensures
            r == (self.c_ori == 0 && self.e_ori == 0 && self.e_slice_loc == SOLVED_SLICE_LOC),
    {
        self.c_ori == 0 && self.e_ori == 0 && self.e_slice_loc == SOLVED_SLICE_LOC
    }

    /// The two coordinates of the corners.
    pub open spec fn spec_corners(&self) -> CornersCube {
        CornersCube { prm: self.c_prm, ori: self.c_ori }
    }

    /// The three coordinates of the first phase.
    pub fn to_coset(&self) -> (r: CosetCube)
        ensures
            r == self.spec_coset(),
    {
        CosetCube { c_ori: self.c_ori, e_ori: self.e_ori, e_slice_loc: self.e_slice_loc }
    }

    /// The two coordinates of the corners.
    pub fn to_corners(&self) -> (r: CornersCube)
        ensures
            r == self.spec_corners(),
    {
        CornersCube { prm: self.c_prm, ori: self.c_ori }
    }

    pub fn to_subset(&self) -> (r: SubsetCube)
        ensures
            r == self.spec_subset(),
    {
        SubsetCube {
            c_prm: self.c_prm,
            e_slice_prm: self.e_slice_prm,
            e_non_slice_prm: self.e_non_slice_prm,
        }
    }

    /// The place of the coordinates of the first phase in their range.
    pub fn coset_index(&self) -> (r: u32)
        requires
            self.spec_coset().well_formed(),
        ensures
            r == self.spec_coset().spec_index(),
            r < 2217093120,
    {
        let coset_cube = CosetCube {
            c_ori: self.c_ori,
            e_ori: self.e_ori,
            e_slice_loc: self.e_slice_loc,
        };
        coset_cube.index()
    }

    /// The place of the corners among all states of the corners.
    pub fn corners_index(&self) -> (r: u32)
        requires
            self.spec_corners().well_formed(),
        ensures
            r == self.spec_corners_index(),
            r < 88179840,
            r / 2187 == self.c_prm,
            r % 2187 == self.c_ori,
    {
        self.c_prm as u32 * Corners::ORI_SIZE as u32 + self.c_ori as u32
    }

    /// The cube after `twist`, by six lookups in the move tables.
    pub fn twisted(&self, twister: &AllTwister, twist: Twist) -> (r: Self)
        requires
            twister.well_formed(),
            self.well_formed(),
        ensures
            r == self.spec_twisted(twist),
            r.well_formed(),
    {
        Self {
            c_prm: twister.twisted_c_prm(self.c_prm, twist),
            c_ori: twister.twisted_c_ori(self.c_ori, twist),
            e_non_slice_prm: twister.twisted_e_non_slice_prm(
                self.e_non_slice_prm,
                self.e_slice_loc,
                twist,
            ),
            e_slice_prm: twister.twisted_e_slice_prm(self.e_slice_prm, self.e_slice_loc, twist),
            e_slice_loc: twister.twisted_e_slice_loc(self.e_slice_loc, twist),
            e_ori: twister.twisted_e_ori(self.e_ori, twist),
        }
    }

    /// The cube after the turns `twists`, one after the other.
    pub fn twisted_by(&self, twister: &AllTwister, twists: &Vec<Twist>) -> (r: Self)
        requires
            twister.well_formed(),
            self.well_formed(),
        ensures
            r == self.spec_twisted_by(twists@),
            r.well_formed(),
    {
        let mut cube = *self;
        proof {
            assert(twists@.take(0) =~= Seq::<Twist>::empty());
        }
        for k in 0..twists.len()
            invariant
                twister.well_formed(),
                cube.well_formed(),
                cube == self.spec_twisted_by(twists@.take(k as int)),
        {
            proof {
                lemma_twisted_by_one_more(*self, twists@.take(k as int), twists@[k as int]);
                assert(twists@.take(k + 1) =~= twists@.take(k as int).push(twists@[k as int]));
            }
            cube = cube.twisted(twister, twists[k]);
        }
        proof {
            assert(twists@.take(twists@.len() as int) =~= twists@);
        }
        cube
    }

    /// The name of the type and its six coordinates.
    pub fn to_string(&self) -> (line: String)
        ensures
            line@ == spec_cube_line(
                self.c_prm,
                self.c_ori,
                self.e_non_slice_prm,
                self.e_slice_prm,
                self.e_slice_loc,
                self.e_ori,
            ),
    {
        cube_line(
            self.c_prm,
            self.c_ori,
            self.e_non_slice_prm,
            self.e_slice_prm,
            self.e_slice_loc,
            self.e_ori,
        )
    }
}

/// Turning by a sequence and then by one turn more is turning by the longer
/// sequence.
pub proof fn lemma_twisted_by_one_more(cube: Cube, twists: Seq<Twist>, t: Twist)
    ensures
        cube.spec_twisted_by(twists.push(t)) == cube.spec_twisted_by(twists).spec_twisted(t),
    decreases twists.len(),
{
    if twists.len() == 0 {
        assert(twists.push(t).skip(1) =~= Seq::<Twist>::empty());
        assert(cube.spec_twisted(t).spec_twisted_by(Seq::<Twist>::empty()) == cube.spec_twisted(t));
    } else {
        assert(twists.push(t).skip(1) =~= twists.skip(1).push(t));
        lemma_twisted_by_one_more(cube.spec_twisted(twists[0]), twists.skip(1), t);
    }
}

} // verus!
