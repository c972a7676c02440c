//! Move tables: for each coordinate of the cube and each turn, the coordinate
//! after the turn, worked out once from the cubies and looked up ever after.

use crate::corners::Corners;
use crate::edges::Edges;
use crate::twist::{lemma_twist_index, Twist, Twistable};
use rayon::iter::{IndexedParallelIterator, ParallelIterator};
use rayon::slice::ParallelSliceMut;
use vstd::prelude::*;

verus! {

/// Whether `v` is what `index` gives for the state that `from_index` gives for
/// `i`, after the turn `t`.
pub open spec fn is_twisted_index<Obj: Twistable, F: Fn(Obj) -> u16, G: Fn(usize) -> Obj>(
    index: F,
    from_index: G,
    i: usize,
    t: Twist,
    v: u16,
) -> bool {
    exists|o: Obj| from_index.ensures((i,), o) && index.ensures((o.spec_twisted(t),), v)
}

/// Whether `row` holds, for each turn, what `index` gives for the state that
/// `from_index` gives for `i`, after the turn.
pub open spec fn is_row<Obj: Twistable, F: Fn(Obj) -> u16, G: Fn(usize) -> Obj>(
    row: Seq<u16>,
    index: F,
    from_index: G,
    i: usize,
) -> bool {
    &&& row.len() == 18
    &&& forall|t: Twist| is_twisted_index(index, from_index, i, t, #[trigger] row[t.spec_index()])
}

/// Fills the row of the value `i` of the coordinate.
fn fill_row<Obj, F, G>(index: &F, from_index: &G, i: usize, row: &mut [u16]) where
    Obj: Twistable,
    F: Fn(Obj) -> u16,
    G: Fn(usize) -> Obj,

    requires
        old(row)@.len() == 18,
        from_index.requires((i,)),
        forall|o: Obj| from_index.ensures((i,), o) ==> o.well_formed(),
        forall|o: Obj| o.well_formed() ==> index.requires((o,)),
    ensures
        is_row(final(row)@, *index, *from_index, i),
{
    let obj = from_index(i);
    for k in 0..18usize
        invariant
            row@.len() == 18,
            from_index.ensures((i,), obj),
            obj.well_formed(),
            forall|o: Obj| o.well_formed() ==> index.requires((o,)),
            forall|t: Twist|
                t.spec_index() < k ==> is_twisted_index(
                    *index,
                    *from_index,
                    i,
                    t,
                    #[trigger] row@[t.spec_index()],
                ),
    {
        let twist = Twist::from(k as u8);
        let v = index(obj.twisted(twist));
        proof {
            assert(is_twisted_index(*index, *from_index, i, twist, v));
        }
        row[k] = v;
        proof {
            assert forall|t: Twist| t.spec_index() < k + 1 implies is_twisted_index(
                *index,
                *from_index,
                i,
                t,
                #[trigger] row@[t.spec_index()],
            ) by {
                lemma_twist_index(t);
            }
        }
    }
    proof {
        assert forall|t: Twist|
            is_twisted_index(*index, *from_index, i, t, #[trigger] row@[t.spec_index()]) by {
            lemma_twist_index(t);
        }
    }
}

/// `par_chunks_mut(18)` cuts the table into its rows, which do not overlap,
/// `enumerate` numbers them from 0, and `for_each` runs `fill_row` once on
/// each of them, on several threads.
#[verifier::external_body]
fn fill_rows<Obj, F, G>(table: &mut Vec<u16>, index: &F, from_index: &G, index_space: usize) where
    Obj: Twistable,
    F: Fn(Obj) -> u16 + Sync,
    G: Fn(usize) -> Obj + Sync,

    requires
        old(table)@.len() == index_space * 18,
        forall|i: usize| i < index_space ==> from_index.requires((i,)),
        forall|i: usize, o: Obj| i < index_space && from_index.ensures((i,), o) ==> o.well_formed(),
        forall|o: Obj| o.well_formed() ==> index.requires((o,)),
    ensures
        final(table)@.len() == index_space * 18,
        forall|i: usize|
            i < index_space ==> is_row(
                #[trigger] final(table)@.subrange(i * 18, i * 18 + 18),
                *index,
                *from_index,
                i,
            ),
{
    table.par_chunks_mut(18).enumerate().for_each(|(i, row)| fill_row(index, from_index, i, row));
}

/// A move table for one coordinate: for each value of the coordinate a row of
/// eighteen entries, one for each turn.
pub struct Twister {
    table: Vec<u16>,
}

impl Twister {
    /// The number of rows.
    pub closed spec fn spec_rows(&self) -> int {
        self.table@.len() as int / 18
    }

    /// The entry for the turn `t` in row `i`.
    pub closed spec fn spec_get(&self, i: int, t: Twist) -> u16 {
        self.table@[i * 18 + t.spec_index()]
    }

    /// The table for the coordinate that `index` reads off a state, where
    /// `from_index` gives a state for each of the `index_space` values of the
    /// coordinate.
    pub fn new<Obj, F, G>(index: F, from_index: G, index_space: usize) -> (r: Self) where
        Obj: Twistable,
        F: Fn(Obj) -> u16 + Sync,
        G: Fn(usize) -> Obj + Sync,

        requires
            index_space * 18 <= usize::MAX,
            forall|i: usize| i < index_space ==> from_index.requires((i,)),
            forall|i: usize, o: Obj|
                i < index_space && from_index.ensures((i,), o) ==> o.well_formed(),
            forall|o: Obj| o.well_formed() ==> index.requires((o,)),
        ensures
            r.spec_rows() == index_space,
            forall|i: usize, t: Twist|
                i < index_space ==> is_twisted_index(
                    index,
                    from_index,
                    i,
                    t,
                    #[trigger] r.spec_get(i as int, t),
                ),
    {
        let mut table: Vec<u16> = vec![0u16; index_space * 18];
        fill_rows(&mut table, &index, &from_index, index_space);
        proof {
            assert forall|i: usize, t: Twist| i < index_space implies is_twisted_index(
                index,
                from_index,
                i,
                t,
                #[trigger] table@[i * 18 + t.spec_index()],
            ) by {
                assert(is_row(table@.subrange(i * 18, i * 18 + 18), index, from_index, i));
                lemma_twist_index(t);
                assert(table@.subrange(i * 18, i * 18 + 18)[t.spec_index()] == table@[i * 18
                    + t.spec_index()]);
            }
        }
        Self { table }
    }

    /// The entry for `twist` in row `i`.
    pub fn get(&self, i: usize, twist: Twist) -> (r: u16)
        requires
            i < self.spec_rows(),
        ensures
            r == self.spec_get(i as int, twist),
    {
        let len = self.table.len();
        assert(i * 18 + 18 <= len);
        self.table[i * 18 + twist.index() as usize]
    }
}

/// The corner orientation index after the turn `t`: what the cubies with that
/// orientation index, and the first permutation, have after the turn.
pub open spec fn spec_twisted_c_ori(c_ori: int, t: Twist) -> int {
    Corners::spec_from_index(0, c_ori).spec_twisted(t).spec_ori_index()
}

/// The corner permutation index after the turn `t`.
pub open spec fn spec_twisted_c_prm(c_prm: int, t: Twist) -> int {
    Corners::spec_from_index(c_prm, 0).spec_twisted(t).spec_prm_index() as int
}

/// The edge orientation index after the turn `t`.
pub open spec fn spec_twisted_e_ori(e_ori: int, t: Twist) -> int {
    Edges::spec_from_index(0, 0, 0, e_ori).spec_twisted(t).spec_ori_index()
}

/// The index of the places of the slice cubies after the turn `t`.
pub open spec fn spec_twisted_e_slice_loc(e_slice_loc: int, t: Twist) -> int {
    Edges::spec_from_index(0, 0, e_slice_loc, 0).spec_twisted(t).spec_slice_loc_index() as int
}

/// The index of the permutation of the slice cubies after the turn `t`, which
/// depends on the places at which they stand.
pub open spec fn spec_twisted_e_slice_prm(e_slice_prm: int, e_slice_loc: int, t: Twist) -> int {
    Edges::spec_from_index(e_slice_prm, 0, e_slice_loc, 0).spec_twisted(t).spec_slice_prm_index() as int
}

/// The index of the permutation of the other eight edge cubies after the
/// turn `t`, which depends on the places of the slice cubies.
pub open spec fn spec_twisted_e_non_slice_prm(e_non_slice_prm: int, e_slice_loc: int, t: Twist) -> int {
    Edges::spec_from_index(
        0,
        e_non_slice_prm,
        e_slice_loc,
        0,
    ).spec_twisted(t).spec_non_slice_prm_index() as int
}

/// The move table of the orientation of the corners.
pub fn corner_orientation_twister() -> (r: Twister)
    ensures
        r.spec_rows() == 2187,
        forall|i: int, t: Twist|
            0 <= i < 2187 ==> #[trigger] r.spec_get(i, t) == spec_twisted_c_ori(i, t) && r.spec_get(
                i,
                t,
            ) < 2187,
{
    let index = |c: Corners| -> (r: u16)
        requires
            c.well_formed(),
        ensures
            r == c.spec_ori_index(),
            r < 2187,
        { c.ori_index() };
    let state = |i: usize| -> (o: Corners)
        requires
            i < 2187,
        ensures
            o == Corners::spec_from_index(0, i as int),
            o.well_formed(),
        { Corners::from_index(0, i as u16) };
    let r = Twister::new(index, state, Corners::ORI_SIZE as usize);
    proof {
        assert forall|i: int, t: Twist| 0 <= i < 2187 implies #[trigger] r.spec_get(i, t)
            == spec_twisted_c_ori(i, t) && r.spec_get(i, t) < 2187 by {
            assert(is_twisted_index(index, state, i as usize, t, r.spec_get(i, t)));
        }
    }
    r
}

/// The move table of the permutation of the corners.
pub fn corner_permutation_twister() -> (r: Twister)
    ensures
        r.spec_rows() == 40320,
        forall|i: int, t: Twist|
            0 <= i < 40320 ==> #[trigger] r.spec_get(i, t) == spec_twisted_c_prm(i, t) && r.spec_get(
                i,
                t,
            ) < 40320,
{
    let index = |c: Corners| -> (r: u16)
        requires
            c.well_formed(),
        ensures
            r == c.spec_prm_index(),
            r < 40320,
        { c.prm_index() };
    let state = |i: usize| -> (o: Corners)
        requires
            i < 40320,
        ensures
            o == Corners::spec_from_index(i as int, 0),
            o.well_formed(),
        { Corners::from_index(i as u16, 0) };
    let r = Twister::new(index, state, Corners::PRM_SIZE as usize);
    proof {
        assert forall|i: int, t: Twist| 0 <= i < 40320 implies #[trigger] r.spec_get(i, t)
            == spec_twisted_c_prm(i, t) && r.spec_get(i, t) < 40320 by {
            assert(is_twisted_index(index, state, i as usize, t, r.spec_get(i, t)));
        }
    }
    r
}

/// The six move tables of the cube's coordinates.
pub struct AllTwister {
    c_ori: Twister,
    c_prm: Twister,
    e_ori: Twister,
    e_slice_prm: Twister,
    e_non_slice_prm: Twister,
    e_slice_loc: Twister,
}

impl AllTwister {
    /// Whether each table has a row for each value of its coordinate, and each
    /// entry is the coordinate that the cubies have after the turn.
    pub closed spec fn well_formed(&self) -> bool {
        &&& self.c_ori.spec_rows() == 2187
        &&& self.c_prm.spec_rows() == 40320
        &&& self.e_ori.spec_rows() == 2048
        &&& self.e_slice_loc.spec_rows() == 495
        &&& self.e_slice_prm.spec_rows() == 24 * 495
        &&& self.e_non_slice_prm.spec_rows() == 40320 * 495
        &&& forall|i: int, t: Twist|
            0 <= i < 2187 ==> #[trigger] self.c_ori.spec_get(i, t) == spec_twisted_c_ori(i, t)
                && self.c_ori.spec_get(i, t) < 2187
        &&& forall|i: int, t: Twist|
            0 <= i < 40320 ==> #[trigger] self.c_prm.spec_get(i, t) == spec_twisted_c_prm(i, t)
                && self.c_prm.spec_get(i, t) < 40320
        &&& forall|i: int, t: Twist|
            0 <= i < 2048 ==> #[trigger] self.e_ori.spec_get(i, t) == spec_twisted_e_ori(i, t)
                && self.e_ori.spec_get(i, t) < 2048
        &&& forall|i: int, t: Twist|
            0 <= i < 495 ==> #[trigger] self.e_slice_loc.spec_get(i, t) == spec_twisted_e_slice_loc(
                i,
                t,
            ) && self.e_slice_loc.spec_get(i, t) < 495
        &&& forall|i: int, t: Twist|
            0 <= i < 24 * 495 ==> #[trigger] self.e_slice_prm.spec_get(i, t)
                == spec_twisted_e_slice_prm(i / 495, i % 495, t) && self.e_slice_prm.spec_get(i, t)
                < 24
        &&& forall|i: int, t: Twist|
            0 <= i < 40320 * 495 ==> #[trigger] self.e_non_slice_prm.spec_get(i, t)
                == spec_twisted_e_non_slice_prm(i / 495, i % 495, t)
                && self.e_non_slice_prm.spec_get(i, t) < 40320
    }

    /// What the move tables hold is within the range of each coordinate.
    pub proof fn lemma_bounds(&self, t: Twist)
        requires
            self.well_formed(),
        ensures
            forall|i: int| 0 <= i < 2187 ==> 0 <= #[trigger] spec_twisted_c_ori(i, t) < 2187,
            forall|i: int| 0 <= i < 40320 ==> 0 <= #[trigger] spec_twisted_c_prm(i, t) < 40320,
            forall|i: int| 0 <= i < 2048 ==> 0 <= #[trigger] spec_twisted_e_ori(i, t) < 2048,
            forall|i: int| 0 <= i < 495 ==> 0 <= #[trigger] spec_twisted_e_slice_loc(i, t) < 495,
            forall|i: int, l: int|
                0 <= i < 24 && 0 <= l < 495 ==> 0 <= #[trigger] spec_twisted_e_slice_prm(i, l, t)
                    < 24,
            forall|i: int, l: int|
                0 <= i < 40320 && 0 <= l < 495 ==> 0 <= #[trigger] spec_twisted_e_non_slice_prm(
                    i,
                    l,
                    t,
                ) < 40320,
    {
        assert forall|i: int| 0 <= i < 2187 implies 0 <= #[trigger] spec_twisted_c_ori(i, t)
            < 2187 by {
            assert(self.c_ori.spec_get(i, t) == spec_twisted_c_ori(i, t));
        }
        assert forall|i: int| 0 <= i < 40320 implies 0 <= #[trigger] spec_twisted_c_prm(i, t)
            < 40320 by {
            assert(self.c_prm.spec_get(i, t) == spec_twisted_c_prm(i, t));
        }
        assert forall|i: int| 0 <= i < 2048 implies 0 <= #[trigger] spec_twisted_e_ori(i, t)
            < 2048 by {
            assert(self.e_ori.spec_get(i, t) == spec_twisted_e_ori(i, t));
        }
        assert forall|i: int| 0 <= i < 495 implies 0 <= #[trigger] spec_twisted_e_slice_loc(i, t)
            < 495 by {
            assert(self.e_slice_loc.spec_get(i, t) == spec_twisted_e_slice_loc(i, t));
        }
        assert forall|i: int, l: int| 0 <= i < 24 && 0 <= l < 495 implies 0
            <= #[trigger] spec_twisted_e_slice_prm(i, l, t) < 24 by {
            let row = i * 495 + l;
            assert(row / 495 == i && row % 495 == l);
            assert(self.e_slice_prm.spec_get(row, t) == spec_twisted_e_slice_prm(
                row / 495,
                row % 495,
                t,
            ));
        }
        assert forall|i: int, l: int| 0 <= i < 40320 && 0 <= l < 495 implies 0
            <= #[trigger] spec_twisted_e_non_slice_prm(i, l, t) < 40320 by {
            let row = i * 495 + l;
            assert(row / 495 == i && row % 495 == l);
            assert(self.e_non_slice_prm.spec_get(row, t) == spec_twisted_e_non_slice_prm(
                row / 495,
                row % 495,
                t,
            ));
        }
    }

    /// Works out the six tables from the cubies.
    #[verifier::rlimit(50)]
    pub fn new() -> (r: Self)
        ensures
            r.well_formed(),
    {
        let c_ori = corner_orientation_twister();
        let c_prm = corner_permutation_twister();
        let e_ori_index = |e: Edges| -> (r: u16)
            requires
                e.well_formed(),
            ensures
                r == e.spec_ori_index(),
                r < 2048,
            { e.ori_index() };
        let e_ori_from = |i: usize| -> (o: Edges)
            requires
                i < 2048,
            ensures
                o == Edges::spec_from_index(0, 0, 0, i as int),
                o.well_formed(),
            { Edges::from_index(0, 0, 0, i as u16) };
        let e_ori = Twister::new(e_ori_index, e_ori_from, Edges::ORI_SIZE as usize);
        proof {
            assert forall|i: int, t: Twist| 0 <= i < 2048 implies #[trigger] e_ori.spec_get(i, t)
                == spec_twisted_e_ori(i, t) && e_ori.spec_get(i, t) < 2048 by {
                assert(is_twisted_index(e_ori_index, e_ori_from, i as usize, t, e_ori.spec_get(i, t)));
            }
        }
        let e_slice_prm_index = |e: Edges| -> (r: u16)
            requires
                e.well_formed(),
            ensures
                r == e.spec_slice_prm_index(),
                r < 24,
            { e.slice_prm_index() as u16 };
        let e_slice_prm_from = |i: usize| -> (o: Edges)
            requires
                i < 24 * 495,
            ensures
                o == Edges::spec_from_index(i as int / 495, 0, i as int % 495, 0),
                o.well_formed(),
            {
                Edges::from_index(
                    (i / Edges::SLICE_LOC_SIZE as usize) as u8,
                    0,
                    (i % Edges::SLICE_LOC_SIZE as usize) as u16,
                    0,
                )
            };
        let e_slice_prm = Twister::new(
            e_slice_prm_index,
            e_slice_prm_from,
            (Edges::SLICE_PRM_SIZE as usize) * (Edges::SLICE_LOC_SIZE as usize),
        );
        proof {
            assert forall|i: int, t: Twist| 0 <= i < 24 * 495 implies #[trigger] e_slice_prm.spec_get(
                i,
                t,
            ) == spec_twisted_e_slice_prm(i / 495, i % 495, t) && e_slice_prm.spec_get(i, t)
                < 24 by {
                assert(is_twisted_index(
                    e_slice_prm_index,
                    e_slice_prm_from,
                    i as usize,
                    t,
                    e_slice_prm.spec_get(i, t),
                ));
            }
        }
        let e_non_slice_prm_index = |e: Edges| -> (r: u16)
            requires
                e.well_formed(),
            ensures
                r == e.spec_non_slice_prm_index(),
                r < 40320,
            { e.non_slice_prm_index() };
        let e_non_slice_prm_from = |i: usize| -> (o: Edges)
            requires
                i < 40320 * 495,
            ensures
                o == Edges::spec_from_index(0, i as int / 495, i as int % 495, 0),
                o.well_formed(),
            {
                Edges::from_index(
                    0,
                    (i / Edges::SLICE_LOC_SIZE as usize) as u16,
                    (i % Edges::SLICE_LOC_SIZE as usize) as u16,
                    0,
                )
            };
        let e_non_slice_prm = Twister::new(
            e_non_slice_prm_index,
            e_non_slice_prm_from,
            (Edges::NON_SLICE_PRM_SIZE as usize) * (Edges::SLICE_LOC_SIZE as usize),
        );
        proof {
            assert forall|i: int, t: Twist|
                0 <= i < 40320 * 495 implies #[trigger] e_non_slice_prm.spec_get(i, t)
                == spec_twisted_e_non_slice_prm(i / 495, i % 495, t) && e_non_slice_prm.spec_get(
                i,
                t,
            ) < 40320 by {
                assert(is_twisted_index(
                    e_non_slice_prm_index,
                    e_non_slice_prm_from,
                    i as usize,
                    t,
                    e_non_slice_prm.spec_get(i, t),
                ));
            }
        }
        let e_slice_loc_index = |e: Edges| -> (r: u16)
            requires
                e.well_formed(),
            ensures
                r == e.spec_slice_loc_index(),
                r < 495,
            { e.slice_loc_index() };
        let e_slice_loc_from = |i: usize| -> (o: Edges)
            requires
                i < 495,
            ensures
                o == Edges::spec_from_index(0, 0, i as int, 0),
                o.well_formed(),
            { Edges::from_index(0, 0, i as u16, 0) };
        let e_slice_loc = Twister::new(
            e_slice_loc_index,
            e_slice_loc_from,
            Edges::SLICE_LOC_SIZE as usize,
        );
        proof {
            assert forall|i: int, t: Twist| 0 <= i < 495 implies #[trigger] e_slice_loc.spec_get(i, t)
                == spec_twisted_e_slice_loc(i, t) && e_slice_loc.spec_get(i, t) < 495 by {
                assert(is_twisted_index(
                    e_slice_loc_index,
                    e_slice_loc_from,
                    i as usize,
                    t,
                    e_slice_loc.spec_get(i, t),
                ));
            }
        }
        Self { c_ori, c_prm, e_ori, e_slice_prm, e_non_slice_prm, e_slice_loc }
    }

    pub fn twisted_c_ori(&self, c_ori: u16, twist: Twist) -> (r: u16)
        requires
            self.well_formed(),
            c_ori < 2187,
        ensures
            r == spec_twisted_c_ori(c_ori as int, twist),
            r < 2187,
    {
        self.c_ori.get(c_ori as usize, twist)
    }

    pub fn twisted_c_prm(&self, c_prm: u16, twist: Twist) -> (r: u16)
        requires
            self.well_formed(),
            c_prm < 40320,
        ensures
            r == spec_twisted_c_prm(c_prm as int, twist),
            r < 40320,
    {
        self.c_prm.get(c_prm as usize, twist)
    }

    pub fn twisted_e_ori(&self, e_ori: u16, twist: Twist) -> (r: u16)
        requires
            self.well_formed(),
            e_ori < 2048,
        ensures
            r == spec_twisted_e_ori(e_ori as int, twist),
            r < 2048,
    {
        self.e_ori.get(e_ori as usize, twist)
    }

    pub fn twisted_e_slice_prm(&self, e_slice_prm: u8, e_slice_loc: u16, twist: Twist) -> (r: u8)
        requires
            self.well_formed(),
            e_slice_prm < 24,
            e_slice_loc < 495,
        ensures
            r == spec_twisted_e_slice_prm(e_slice_prm as int, e_slice_loc as int, twist),
            r < 24,
    {
        let row = e_slice_prm as u16 * Edges::SLICE_LOC_SIZE + e_slice_loc;
        self.e_slice_prm.get(row as usize, twist) as u8
    }

    pub fn twisted_e_non_slice_prm(&self, e_non_slice_prm: u16, e_slice_loc: u16, twist: Twist) -> (r:
        u16)
        requires
            self.well_formed(),
            e_non_slice_prm < 40320,
            e_slice_loc < 495,
        ensures
            r == spec_twisted_e_non_slice_prm(e_non_slice_prm as int, e_slice_loc as int, twist),
            r < 40320,
    {
        assert(Edges::SLICE_LOC_SIZE == 495);
        assert(e_non_slice_prm * 495 <= 40319 * 495);
        let row = e_non_slice_prm as usize * Edges::SLICE_LOC_SIZE as usize + e_slice_loc as usize;
        self.e_non_slice_prm.get(row, twist)
    }

    pub fn twisted_e_slice_loc(&self, e_slice_loc: u16, twist: Twist) -> (r: u16)
        requires
            self.well_formed(),
            e_slice_loc < 495,
        ensures
            r == spec_twisted_e_slice_loc(e_slice_loc as int, twist),
            r < 495,
    {
        self.e_slice_loc.get(e_slice_loc as usize, twist)
    }
}

} // verus!
