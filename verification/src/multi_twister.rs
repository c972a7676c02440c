//! Move tables for a whole sequence of turns: for each coordinate of the cube
//! the coordinate after all the turns of the sequence, worked out once by
//! going through the sequence with the move tables of the single turns.

use crate::cube::{
    lemma_twisted_by_one_more, CornersCube, CosetCube, Cube, SubsetCube, SOLVED_SLICE_LOC,
};
use crate::tables::collect_entries;
use crate::twist::Twist;
use crate::twister::{
    spec_twisted_c_ori, spec_twisted_c_prm, spec_twisted_e_non_slice_prm, spec_twisted_e_ori,
    spec_twisted_e_slice_loc, spec_twisted_e_slice_prm, AllTwister,
};
use vstd::prelude::*;

verus! {

/// The orientation of the corners after the turns `twists`.
pub open spec fn spec_c_ori_by(c_ori: int, twists: Seq<Twist>) -> int
    decreases twists.len(),
{
    if twists.len() == 0 {
        c_ori
    } else {
        spec_twisted_c_ori(spec_c_ori_by(c_ori, twists.drop_last()), twists.last())
    }
}

/// The permutation of the corners after the turns `twists`.
pub open spec fn spec_c_prm_by(c_prm: int, twists: Seq<Twist>) -> int
    decreases twists.len(),
{
    if twists.len() == 0 {
        c_prm
    } else {
        spec_twisted_c_prm(spec_c_prm_by(c_prm, twists.drop_last()), twists.last())
    }
}

/// The orientation of the edges after the turns `twists`.
pub open spec fn spec_e_ori_by(e_ori: int, twists: Seq<Twist>) -> int
    decreases twists.len(),
{
    if twists.len() == 0 {
        e_ori
    } else {
        spec_twisted_e_ori(spec_e_ori_by(e_ori, twists.drop_last()), twists.last())
    }
}

/// The places of the slice edges after the turns `twists`.
pub open spec fn spec_e_slice_loc_by(e_slice_loc: int, twists: Seq<Twist>) -> int
    decreases twists.len(),
{
    if twists.len() == 0 {
        e_slice_loc
    } else {
        spec_twisted_e_slice_loc(spec_e_slice_loc_by(e_slice_loc, twists.drop_last()), twists.last())
    }
}

/// The permutation of the slice edges after the turns `twists`, which goes by
/// the places that the slice edges have before each turn.
pub open spec fn spec_e_slice_prm_by(e_slice_prm: int, e_slice_loc: int, twists: Seq<Twist>) -> int
    decreases twists.len(),
{
    if twists.len() == 0 {
        e_slice_prm
    } else {
        spec_twisted_e_slice_prm(
            spec_e_slice_prm_by(e_slice_prm, e_slice_loc, twists.drop_last()),
            spec_e_slice_loc_by(e_slice_loc, twists.drop_last()),
            twists.last(),
        )
    }
}

/// The permutation of the other edges after the turns `twists`, which goes by
/// the places that the slice edges have before each turn.
pub open spec fn spec_e_non_slice_prm_by(
    e_non_slice_prm: int,
    e_slice_loc: int,
    twists: Seq<Twist>,
) -> int
    decreases twists.len(),
{
    if twists.len() == 0 {
        e_non_slice_prm
    } else {
        spec_twisted_e_non_slice_prm(
            spec_e_non_slice_prm_by(e_non_slice_prm, e_slice_loc, twists.drop_last()),
            spec_e_slice_loc_by(e_slice_loc, twists.drop_last()),
            twists.last(),
        )
    }
}

/// The coordinates stay within their ranges through every sequence of turns.
pub proof fn lemma_by_in_range(
    twister: AllTwister,
    c_prm: int,
    c_ori: int,
    e_non_slice_prm: int,
    e_slice_prm: int,
    e_slice_loc: int,
    e_ori: int,
    twists: Seq<Twist>,
)
    requires
        twister.well_formed(),
        0 <= c_prm < 40320,
        0 <= c_ori < 2187,
        0 <= e_non_slice_prm < 40320,
        0 <= e_slice_prm < 24,
        0 <= e_slice_loc < 495,
        0 <= e_ori < 2048,
    ensures
        0 <= spec_c_prm_by(c_prm, twists) < 40320,
        0 <= spec_c_ori_by(c_ori, twists) < 2187,
        0 <= spec_e_non_slice_prm_by(e_non_slice_prm, e_slice_loc, twists) < 40320,
        0 <= spec_e_slice_prm_by(e_slice_prm, e_slice_loc, twists) < 24,
        0 <= spec_e_slice_loc_by(e_slice_loc, twists) < 495,
        0 <= spec_e_ori_by(e_ori, twists) < 2048,
    decreases twists.len(),
{
    if twists.len() > 0 {
        lemma_by_in_range(
            twister,
            c_prm,
            c_ori,
            e_non_slice_prm,
            e_slice_prm,
            e_slice_loc,
            e_ori,
            twists.drop_last(),
        );
        twister.lemma_bounds(twists.last());
    }
}

/// The cube after a sequence of turns has each coordinate after the sequence.
pub proof fn lemma_cube_by(twister: AllTwister, cube: Cube, twists: Seq<Twist>)
    requires
        twister.well_formed(),
        cube.well_formed(),
    ensures
        cube.spec_twisted_by(twists) == (Cube {
            c_prm: spec_c_prm_by(cube.c_prm as int, twists) as u16,
            c_ori: spec_c_ori_by(cube.c_ori as int, twists) as u16,
            e_non_slice_prm: spec_e_non_slice_prm_by(
                cube.e_non_slice_prm as int,
                cube.e_slice_loc as int,
                twists,
            ) as u16,
            e_slice_prm: spec_e_slice_prm_by(
                cube.e_slice_prm as int,
                cube.e_slice_loc as int,
                twists,
            ) as u8,
            e_slice_loc: spec_e_slice_loc_by(cube.e_slice_loc as int, twists) as u16,
            e_ori: spec_e_ori_by(cube.e_ori as int, twists) as u16,
        }),
    decreases twists.len(),
{
    if twists.len() == 0 {
        assert(cube.spec_twisted_by(twists) == cube);
    } else {
        let before = twists.drop_last();
        lemma_cube_by(twister, cube, before);
        lemma_by_in_range(
            twister,
            cube.c_prm as int,
            cube.c_ori as int,
            cube.e_non_slice_prm as int,
            cube.e_slice_prm as int,
            cube.e_slice_loc as int,
            cube.e_ori as int,
            before,
        );
        lemma_twisted_by_one_more(cube, before, twists.last());
        assert(before.push(twists.last()) =~= twists);
    }
}

/// The six tables for a sequence of turns.
pub struct MultiTwister {
    twister: AllTwister,
    c_ori: Vec<u16>,
    c_prm: Vec<u16>,
    e_ori: Vec<u16>,
    e_slice_prm: Vec<u16>,
    e_non_slice_prm: Vec<u16>,
    e_slice_loc: Vec<u16>,
    set: Ghost<Option<Seq<Twist>>>,
}

impl MultiTwister {
    /// The sequence of turns that the tables are set for, where they are set.
    pub closed spec fn spec_set(&self) -> Option<Seq<Twist>> {
        self.set@
    }

    /// The move tables of the single turns.
    pub closed spec fn spec_twister(&self) -> AllTwister {
        self.twister
    }

    /// The orientation of the corners that the tables give for `c_ori`: what
    /// it is after the turns that the tables are set for, and 0 before they
    /// are set.
    pub open spec fn spec_twisted_c_ori(&self, c_ori: int) -> int {
        match self.spec_set() {
            Some(twists) => spec_c_ori_by(c_ori, twists),
            None => 0,
        }
    }

    /// The permutation of the corners that the tables give for `c_prm`.
    pub open spec fn spec_twisted_c_prm(&self, c_prm: int) -> int {
        match self.spec_set() {
            Some(twists) => spec_c_prm_by(c_prm, twists),
            None => 0,
        }
    }

    /// The orientation of the edges that the tables give for `e_ori`.
    pub open spec fn spec_twisted_e_ori(&self, e_ori: int) -> int {
        match self.spec_set() {
            Some(twists) => spec_e_ori_by(e_ori, twists),
            None => 0,
        }
    }

    /// The places of the slice edges that the tables give for `e_slice_loc`.
    pub open spec fn spec_twisted_e_slice_loc(&self, e_slice_loc: int) -> int {
        match self.spec_set() {
            Some(twists) => spec_e_slice_loc_by(e_slice_loc, twists),
            None => 0,
        }
    }

    /// The permutation of the slice edges that the tables give for
    /// `e_slice_prm` with the slice edges at the places `e_slice_loc`.
    pub open spec fn spec_twisted_e_slice_prm(&self, e_slice_prm: int, e_slice_loc: int) -> int {
        match self.spec_set() {
            Some(twists) => spec_e_slice_prm_by(e_slice_prm, e_slice_loc, twists),
            None => 0,
        }
    }

    /// The permutation of the other edges that the tables give for
    /// `e_non_slice_prm` with the slice edges at the places `e_slice_loc`.
    pub open spec fn spec_twisted_e_non_slice_prm(
        &self,
        e_non_slice_prm: int,
        e_slice_loc: int,
    ) -> int {
        match self.spec_set() {
            Some(twists) => spec_e_non_slice_prm_by(e_non_slice_prm, e_slice_loc, twists),
            None => 0,
        }
    }

    /// Whether each table has an entry for each value of its coordinate, and
    /// each entry is what the tables give: the coordinate after the turns that
    /// they are set for, and 0 before they are set.
    pub closed spec fn well_formed(&self) -> bool {
        &&& self.twister.well_formed()
        &&& self.c_ori@.len() == 2187
        &&& self.c_prm@.len() == 40320
        &&& self.e_ori@.len() == 2048
        &&& self.e_slice_loc@.len() == 495
        &&& self.e_slice_prm@.len() == 24 * 495
        &&& self.e_non_slice_prm@.len() == 40320 * 495
        &&& forall|i: int| 0 <= i < 2187 ==> #[trigger] self.c_ori@[i] == self.spec_twisted_c_ori(i)
        &&& forall|i: int| 0 <= i < 40320 ==> #[trigger] self.c_prm@[i] == self.spec_twisted_c_prm(i)
        &&& forall|i: int| 0 <= i < 2048 ==> #[trigger] self.e_ori@[i] == self.spec_twisted_e_ori(i)
        &&& forall|i: int|
            0 <= i < 495 ==> #[trigger] self.e_slice_loc@[i] == self.spec_twisted_e_slice_loc(i)
        &&& forall|i: int|
            0 <= i < 24 * 495 ==> #[trigger] self.e_slice_prm@[i] == self.spec_twisted_e_slice_prm(
                i / 495,
                i % 495,
            )
        &&& forall|i: int|
            0 <= i < 40320 * 495 ==> #[trigger] self.e_non_slice_prm@[i]
                == self.spec_twisted_e_non_slice_prm(i / 495, i % 495)
    }

    /// Tables that are set for no sequence yet: every entry is 0.
    pub fn new(twister: AllTwister) -> (r: Self)
        requires
            twister.well_formed(),
        ensures
            r.well_formed(),
            r.spec_twister() == twister,
            r.spec_set() is None,
    {
        Self {
            twister,
            c_ori: vec![0u16; 2187],
            c_prm: vec![0u16; 40320],
            e_ori: vec![0u16; 2048],
            e_slice_prm: vec![0u16; 24 * 495],
            e_non_slice_prm: vec![0u16; 40320 * 495],
            e_slice_loc: vec![0u16; 495],
            set: Ghost(None),
        }
    }

    /// The move tables of the single turns.
    pub fn twister(&self) -> (r: &AllTwister)
        ensures
            *r == self.spec_twister(),
    {
        &self.twister
    }

    /// Sets the tables for the sequence `twists`.
    pub fn set_for(&mut self, twists: &[Twist])
        requires
            old(self).well_formed(),
        ensures
            final(self).well_formed(),
            final(self).spec_twister() == old(self).spec_twister(),
            final(self).spec_set() == Some(twists@),
    {
        let twister = &self.twister;
        let c_ori = |i: usize| -> (r: u16)
            requires
                twister.well_formed(),
                i < 2187,
            ensures
                r == spec_c_ori_by(i as int, twists@),
            { c_ori_by(twister, i as u16, twists) };
        self.c_ori = collect_entries(2187, &c_ori);
        let c_prm = |i: usize| -> (r: u16)
            requires
                twister.well_formed(),
                i < 40320,
            ensures
                r == spec_c_prm_by(i as int, twists@),
            { c_prm_by(twister, i as u16, twists) };
        self.c_prm = collect_entries(40320, &c_prm);
        let e_ori = |i: usize| -> (r: u16)
            requires
                twister.well_formed(),
                i < 2048,
            ensures
                r == spec_e_ori_by(i as int, twists@),
            { e_ori_by(twister, i as u16, twists) };
        self.e_ori = collect_entries(2048, &e_ori);
        let e_slice_loc = |i: usize| -> (r: u16)
            requires
                twister.well_formed(),
                i < 495,
            ensures
                r == spec_e_slice_loc_by(i as int, twists@),
            { e_slice_loc_by(twister, i as u16, twists) };
        self.e_slice_loc = collect_entries(495, &e_slice_loc);
        let e_slice_prm = |i: usize| -> (r: u16)
            requires
                twister.well_formed(),
                i < 24 * 495,
            ensures
                r == spec_e_slice_prm_by(i as int / 495, i as int % 495, twists@),
            { e_slice_prm_by(twister, (i / 495) as u8, (i % 495) as u16, twists) as u16 };
        self.e_slice_prm = collect_entries(24 * 495, &e_slice_prm);
        let e_non_slice_prm = |i: usize| -> (r: u16)
            requires
                twister.well_formed(),
                i < 40320 * 495,
            ensures
                r == spec_e_non_slice_prm_by(i as int / 495, i as int % 495, twists@),
            { e_non_slice_prm_by(twister, (i / 495) as u16, (i % 495) as u16, twists) };
        self.e_non_slice_prm = collect_entries(40320 * 495, &e_non_slice_prm);
        self.set = Ghost(Some(twists@));
    }

    /// The orientation of the corners after the turns that the tables are set
    /// for.
    pub fn twisted_c_ori(&self, c_ori: u16) -> (r: u16)
        requires
            self.well_formed(),
            c_ori < 2187,
        ensures
            r == self.spec_twisted_c_ori(c_ori as int),
    {
        self.c_ori[c_ori as usize]
    }

    /// The permutation of the corners after the turns that the tables are set
    /// for.
    pub fn twisted_c_prm(&self, c_prm: u16) -> (r: u16)
        requires
            self.well_formed(),
            c_prm < 40320,
        ensures
            r == self.spec_twisted_c_prm(c_prm as int),
    {
        self.c_prm[c_prm as usize]
    }

    /// The orientation of the edges after the turns that the tables are set for.
    pub fn twisted_e_ori(&self, e_ori: u16) -> (r: u16)
        requires
            self.well_formed(),
            e_ori < 2048,
        ensures
            r == self.spec_twisted_e_ori(e_ori as int),
    {
        self.e_ori[e_ori as usize]
    }

    /// The permutation of the slice edges after the turns that the tables are
    /// set for, where the slice edges stand at the places `e_slice_loc` before.
    pub fn twisted_e_slice_prm(&self, e_slice_prm: u8, e_slice_loc: u16) -> (r: u8)
        requires
            self.well_formed(),
            e_slice_prm < 24,
            e_slice_loc < 495,
        ensures
            r == self.spec_twisted_e_slice_prm(e_slice_prm as int, e_slice_loc as int),
    {
        proof {
            if let Some(twists) = self.spec_set() {
                lemma_by_in_range(
                    self.twister,
                    0,
                    0,
                    0,
                    e_slice_prm as int,
                    e_slice_loc as int,
                    0,
                    twists,
                );
            }
            let row = e_slice_prm * 495 + e_slice_loc;
            assert(row / 495 == e_slice_prm && row % 495 == e_slice_loc);
        }
        self.e_slice_prm[e_slice_prm as usize * 495 + e_slice_loc as usize] as u8
    }

    /// The permutation of the other edges after the turns that the tables are
    /// set for, where the slice edges stand at the places `e_slice_loc` before.
    pub fn twisted_e_non_slice_prm(&self, e_non_slice_prm: u16, e_slice_loc: u16) -> (r: u16)
        requires
            self.well_formed(),
            e_non_slice_prm < 40320,
            e_slice_loc < 495,
        ensures
            r == self.spec_twisted_e_non_slice_prm(e_non_slice_prm as int, e_slice_loc as int),
    {
        proof {
            let row = e_non_slice_prm * 495 + e_slice_loc;
            assert(row / 495 == e_non_slice_prm && row % 495 == e_slice_loc);
            assert(e_non_slice_prm * 495 <= 40319 * 495);
        }
        self.e_non_slice_prm[e_non_slice_prm as usize * 495 + e_slice_loc as usize]
    }

    /// The places of the slice edges after the turns that the tables are set for.
    pub fn twisted_e_slice_loc(&self, e_slice_loc: u16) -> (r: u16)
        requires
            self.well_formed(),
            e_slice_loc < 495,
        ensures
            r == self.spec_twisted_e_slice_loc(e_slice_loc as int),
    {
        self.e_slice_loc[e_slice_loc as usize]
    }

    /// The corners after the turns that the tables are set for.
    pub fn twisted_corners_cube(&self, cube: &CornersCube) -> (r: CornersCube)
        requires
            self.well_formed(),
            cube.well_formed(),
        ensures
            r == (CornersCube {
                prm: self.spec_twisted_c_prm(cube.prm as int) as u16,
                ori: self.spec_twisted_c_ori(cube.ori as int) as u16,
            }),
    {
        CornersCube { prm: self.twisted_c_prm(cube.prm), ori: self.twisted_c_ori(cube.ori) }
    }

    /// The state of the subgroup after the turns that the tables are set for,
    /// where the slice edges stand in their slice before the first of them.
    pub fn twisted_subset_cube(&self, cube: &SubsetCube) -> (r: SubsetCube)
        requires
            self.well_formed(),
            cube.in_range(),
        ensures
            r == (SubsetCube {
                c_prm: self.spec_twisted_c_prm(cube.c_prm as int) as u16,
                e_slice_prm: self.spec_twisted_e_slice_prm(
                    cube.e_slice_prm as int,
                    SOLVED_SLICE_LOC as int,
                ) as u8,
                e_non_slice_prm: self.spec_twisted_e_non_slice_prm(
                    cube.e_non_slice_prm as int,
                    SOLVED_SLICE_LOC as int,
                ) as u16,
            }),
    {
        SubsetCube {
            c_prm: self.twisted_c_prm(cube.c_prm),
            e_slice_prm: self.twisted_e_slice_prm(cube.e_slice_prm, SOLVED_SLICE_LOC),
            e_non_slice_prm: self.twisted_e_non_slice_prm(cube.e_non_slice_prm, SOLVED_SLICE_LOC),
        }
    }

    /// The coset after the turns that the tables are set for.
    pub fn twisted_coset_cube(&self, cube: &CosetCube) -> (r: CosetCube)
        requires
            self.well_formed(),
            cube.well_formed(),
        ensures
            r == (CosetCube {
                c_ori: self.spec_twisted_c_ori(cube.c_ori as int) as u16,
                e_ori: self.spec_twisted_e_ori(cube.e_ori as int) as u16,
                e_slice_loc: self.spec_twisted_e_slice_loc(cube.e_slice_loc as int) as u16,
            }),
    {
        CosetCube {
            c_ori: self.twisted_c_ori(cube.c_ori),
            e_ori: self.twisted_e_ori(cube.e_ori),
            e_slice_loc: self.twisted_e_slice_loc(cube.e_slice_loc),
        }
    }
}

fn c_ori_by(twister: &AllTwister, c_ori: u16, twists: &[Twist]) -> (r: u16)
    requires
        twister.well_formed(),
        c_ori < 2187,
    ensures
        r == spec_c_ori_by(c_ori as int, twists@),
        r < 2187,
{
    let mut index = c_ori;
    proof {
        assert(twists@.take(0) =~= Seq::<Twist>::empty());
    }
    for k in 0..twists.len()
        invariant
            twister.well_formed(),
            index < 2187,
            index == spec_c_ori_by(c_ori as int, twists@.take(k as int)),
    {
        proof {
            assert(twists@.take(k + 1).drop_last() =~= twists@.take(k as int));
        }
        index = twister.twisted_c_ori(index, twists[k]);
    }
    proof {
        assert(twists@.take(twists@.len() as int) =~= twists@);
    }
    index
}

fn c_prm_by(twister: &AllTwister, c_prm: u16, twists: &[Twist]) -> (r: u16)
    requires
        twister.well_formed(),
        c_prm < 40320,
    ensures
        r == spec_c_prm_by(c_prm as int, twists@),
        r < 40320,
{
    let mut index = c_prm;
    proof {
        assert(twists@.take(0) =~= Seq::<Twist>::empty());
    }
    for k in 0..twists.len()
        invariant
            twister.well_formed(),
            index < 40320,
            index == spec_c_prm_by(c_prm as int, twists@.take(k as int)),
    {
        proof {
            assert(twists@.take(k + 1).drop_last() =~= twists@.take(k as int));
        }
        index = twister.twisted_c_prm(index, twists[k]);
    }
    proof {
        assert(twists@.take(twists@.len() as int) =~= twists@);
    }
    index
}

fn e_ori_by(twister: &AllTwister, e_ori: u16, twists: &[Twist]) -> (r: u16)
    requires
        twister.well_formed(),
        e_ori < 2048,
    ensures
        r == spec_e_ori_by(e_ori as int, twists@),
        r < 2048,
{
    let mut index = e_ori;
    proof {
        assert(twists@.take(0) =~= Seq::<Twist>::empty());
    }
    for k in 0..twists.len()
        invariant
            twister.well_formed(),
            index < 2048,
            index == spec_e_ori_by(e_ori as int, twists@.take(k as int)),
    {
        proof {
            assert(twists@.take(k + 1).drop_last() =~= twists@.take(k as int));
        }
        index = twister.twisted_e_ori(index, twists[k]);
    }
    proof {
        assert(twists@.take(twists@.len() as int) =~= twists@);
    }
    index
}

fn e_slice_loc_by(twister: &AllTwister, e_slice_loc: u16, twists: &[Twist]) -> (r: u16)
    requires
        twister.well_formed(),
        e_slice_loc < 495,
    ensures
        r == spec_e_slice_loc_by(e_slice_loc as int, twists@),
        r < 495,
{
    let mut index = e_slice_loc;
    proof {
        assert(twists@.take(0) =~= Seq::<Twist>::empty());
    }
    for k in 0..twists.len()
        invariant
            twister.well_formed(),
            index < 495,
            index == spec_e_slice_loc_by(e_slice_loc as int, twists@.take(k as int)),
    {
        proof {
            assert(twists@.take(k + 1).drop_last() =~= twists@.take(k as int));
        }
        index = twister.twisted_e_slice_loc(index, twists[k]);
    }
    proof {
        assert(twists@.take(twists@.len() as int) =~= twists@);
    }
    index
}

fn e_slice_prm_by(twister: &AllTwister, e_slice_prm: u8, e_slice_loc: u16, twists: &[Twist]) -> (r:
    u8)
    requires
        twister.well_formed(),
        e_slice_prm < 24,
        e_slice_loc < 495,
    ensures
        r == spec_e_slice_prm_by(e_slice_prm as int, e_slice_loc as int, twists@),
        r < 24,
{
    let mut prm = e_slice_prm;
    let mut loc = e_slice_loc;
    proof {
        assert(twists@.take(0) =~= Seq::<Twist>::empty());
    }
    for k in 0..twists.len()
        invariant
            twister.well_formed(),
            prm < 24,
            loc < 495,
            prm == spec_e_slice_prm_by(
                e_slice_prm as int,
                e_slice_loc as int,
                twists@.take(k as int),
            ),
            loc == spec_e_slice_loc_by(e_slice_loc as int, twists@.take(k as int)),
    {
        proof {
            assert(twists@.take(k + 1).drop_last() =~= twists@.take(k as int));
        }
        prm = twister.twisted_e_slice_prm(prm, loc, twists[k]);
        loc = twister.twisted_e_slice_loc(loc, twists[k]);
    }
    proof {
        assert(twists@.take(twists@.len() as int) =~= twists@);
    }
    prm
}

fn e_non_slice_prm_by(
    twister: &AllTwister,
    e_non_slice_prm: u16,
    e_slice_loc: u16,
    twists: &[Twist],
) -> (r: u16)
    requires
        twister.well_formed(),
        e_non_slice_prm < 40320,
        e_slice_loc < 495,
    ensures
        r == spec_e_non_slice_prm_by(e_non_slice_prm as int, e_slice_loc as int, twists@),
        r < 40320,
{
    let mut prm = e_non_slice_prm;
    let mut loc = e_slice_loc;
    proof {
        assert(twists@.take(0) =~= Seq::<Twist>::empty());
    }
    for k in 0..twists.len()
        invariant
            twister.well_formed(),
            prm < 40320,
            loc < 495,
            prm == spec_e_non_slice_prm_by(
                e_non_slice_prm as int,
                e_slice_loc as int,
                twists@.take(k as int),
            ),
            loc == spec_e_slice_loc_by(e_slice_loc as int, twists@.take(k as int)),
    {
        proof {
            assert(twists@.take(k + 1).drop_last() =~= twists@.take(k as int));
        }
        prm = twister.twisted_e_non_slice_prm(prm, loc, twists[k]);
        loc = twister.twisted_e_slice_loc(loc, twists[k]);
    }
    proof {
        assert(twists@.take(twists@.len() as int) =~= twists@);
    }
    prm
}

} // verus!
