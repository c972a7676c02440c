//! The twelve edge cubies: where each one sits and whether it is flipped.
//!
//! Edge numbering scheme:
//! ```text
//!     +----1----+
//!    /|        /|
//!   4 11      5 10
//!  +----0----+  |
//!  |  |      |  |
//!  |  +----2-|--+
//!  8 /       9 /
//!  |7        |6
//!  +----3----+
//! ```

use crate::bits::{bit_is_set, count_set_below};
use crate::math::{
    combination_index, count_less, is_ascending, is_combination, is_even_permutation_array,
    is_permutation, lemma_count_less_bound, lemma_count_less_concat, lemma_factorial_table,
    lemma_nth_combination, lemma_nth_permutation, lemma_pascal_table, lemma_permutation_count_less,
    lemma_permutation_index_bound, lemma_rank_of_ascending, nth_combination, nth_permutation,
    permutation_index, spec_combination_index, spec_combination_rank, spec_inversions,
    spec_nth_combination, spec_nth_permutation, spec_permutation_index, spec_skipped,
};
use crate::text::{cubies_line, spec_cubies_line};
use crate::twist::{spec_inversed, Twist, Twistable};
use vstd::prelude::*;

verus! {

/// The edge pieces of the cube. Each byte stands for one place and holds the
/// cubie that sits there in its low four bits (0 to 11) and whether the cubie
/// is flipped in its high four bits (0 or 1). The cubies 8 to 11 are those of
/// the middle slice.
#[derive(Debug, Clone, Copy, PartialEq, Eq, PartialOrd, Ord)]
pub struct Edges {
    s: [u8; 12],
}

/// The place whose cubie the turn `t` brings to place `i`.
pub open spec fn edge_source(t: Twist, i: int) -> int {
    match t {
        Twist::L1 => if i == 4 {
            11
        } else if i == 7 {
            8
        } else if i == 8 {
            4
        } else if i == 11 {
            7
        } else {
            i
        },
        Twist::L2 => if i == 4 {
            7
        } else if i == 7 {
            4
        } else if i == 8 {
            11
        } else if i == 11 {
            8
        } else {
            i
        },
        Twist::L3 => if i == 4 {
            8
        } else if i == 7 {
            11
        } else if i == 8 {
            7
        } else if i == 11 {
            4
        } else {
            i
        },
        Twist::R1 => if i == 5 {
            9
        } else if i == 6 {
            10
        } else if i == 9 {
            6
        } else if i == 10 {
            5
        } else {
            i
        },
        Twist::R2 => if i == 5 {
            6
        } else if i == 6 {
            5
        } else if i == 9 {
            10
        } else if i == 10 {
            9
        } else {
            i
        },
        Twist::R3 => if i == 5 {
            10
        } else if i == 6 {
            9
        } else if i == 9 {
            5
        } else if i == 10 {
            6
        } else {
            i
        },
        Twist::U1 => if i == 0 {
            5
        } else if i == 1 {
            4
        } else if i == 4 {
            0
        } else if i == 5 {
            1
        } else {
            i
        },
        Twist::U2 => if i == 0 {
            1
        } else if i == 1 {
            0
        } else if i == 4 {
            5
        } else if i == 5 {
            4
        } else {
            i
        },
        Twist::U3 => if i == 0 {
            4
        } else if i == 1 {
            5
        } else if i == 4 {
            1
        } else if i == 5 {
            0
        } else {
            i
        },
        Twist::D1 => if i == 2 {
            6
        } else if i == 3 {
            7
        } else if i == 6 {
            3
        } else if i == 7 {
            2
        } else {
            i
        },
        Twist::D2 => if i == 2 {
            3
        } else if i == 3 {
            2
        } else if i == 6 {
            7
        } else if i == 7 {
            6
        } else {
            i
        },
        Twist::D3 => if i == 2 {
            7
        } else if i == 3 {
            6
        } else if i == 6 {
            2
        } else if i == 7 {
            3
        } else {
            i
        },
        Twist::F1 => if i == 0 {
            8
        } else if i == 3 {
            9
        } else if i == 8 {
            3
        } else if i == 9 {
            0
        } else {
            i
        },
        Twist::F2 => if i == 0 {
            3
        } else if i == 3 {
            0
        } else if i == 8 {
            9
        } else if i == 9 {
            8
        } else {
            i
        },
        Twist::F3 => if i == 0 {
            9
        } else if i == 3 {
            8
        } else if i == 8 {
            0
        } else if i == 9 {
            3
        } else {
            i
        },
        Twist::B1 => if i == 1 {
            10
        } else if i == 2 {
            11
        } else if i == 10 {
            2
        } else if i == 11 {
            1
        } else {
            i
        },
        Twist::B2 => if i == 1 {
            2
        } else if i == 2 {
            1
        } else if i == 10 {
            11
        } else if i == 11 {
            10
        } else {
            i
        },
        Twist::B3 => if i == 1 {
            11
        } else if i == 2 {
            10
        } else if i == 10 {
            1
        } else if i == 11 {
            2
        } else {
            i
        },
    }
}

/// Whether place `i` lies on `face`.
pub open spec fn edge_on_face(face: int, i: int) -> bool {
    if face == 0 {
        i == 4 || i == 7 || i == 8 || i == 11
    } else if face == 1 {
        i == 5 || i == 6 || i == 9 || i == 10
    } else if face == 2 {
        i == 0 || i == 1 || i == 4 || i == 5
    } else if face == 3 {
        i == 2 || i == 3 || i == 6 || i == 7
    } else if face == 4 {
        i == 0 || i == 3 || i == 8 || i == 9
    } else {
        i == 1 || i == 2 || i == 10 || i == 11
    }
}

/// The byte `b` with its cubie flipped.
pub open spec fn spec_flipped(b: u8) -> u8 {
    if b < 16 {
        (b + 16) as u8
    } else if b < 32 {
        (b - 16) as u8
    } else {
        b
    }
}

/// The bytes of the edges after the turn `t`: the cubies move as `edge_source`
/// says, and a quarter turn of the left or the right face flips those that it
/// moves.
pub open spec fn edge_twisted_state(s: Seq<u8>, t: Twist) -> Seq<u8> {
    Seq::new(
        12,
        |i: int|
            if t.spec_quarter_turns() != 2 && t.spec_face() < 2 && edge_on_face(t.spec_face(), i) {
                spec_flipped(s[edge_source(t, i)])
            } else {
                s[edge_source(t, i)]
            },
    )
}

/// Whether the bytes are those of twelve different cubies, each flipped or not.
pub open spec fn edge_state_ok(s: Seq<u8>) -> bool {
    &&& s.len() == 12
    &&& forall|i: int| 0 <= i < 12 ==> (#[trigger] s[i]) < 32 && s[i] % 16 < 12
    &&& forall|i: int, j: int| 0 <= i < j < 12 ==> s[i] % 16 != s[j] % 16
}

proof fn lemma_flip_bits(state: u8)
    by (bit_vector)
    requires
        state < 32,
    ensures
        state ^ 0x10 == (if state < 16 {
            (state + 16) as u8
        } else {
            (state - 16) as u8
        }),
        state & 0x0F == state % 16,
        state >> 4 == state / 16,
{
}

fn ori_swap_l(s: [u8; 12]) -> (r: [u8; 12])
    requires
        forall|i: int| 0 <= i < 12 ==> (#[trigger] s[i]) < 32,
    ensures
        forall|i: int|
            0 <= i < 12 ==> #[trigger] r[i] == (if edge_on_face(0, i) {
                spec_flipped(s[i])
            } else {
                s[i]
            }),
{
    let mut s = s;
    proof {
        lemma_flip_bits(s[4]);
        lemma_flip_bits(s[7]);
        lemma_flip_bits(s[8]);
        lemma_flip_bits(s[11]);
    }
    s[4] ^= 0x10;
    s[7] ^= 0x10;
    s[8] ^= 0x10;
    s[11] ^= 0x10;
    s
}

fn ori_swap_r(s: [u8; 12]) -> (r: [u8; 12])
    requires
        forall|i: int| 0 <= i < 12 ==> (#[trigger] s[i]) < 32,
    ensures
        forall|i: int|
            0 <= i < 12 ==> #[trigger] r[i] == (if edge_on_face(1, i) {
                spec_flipped(s[i])
            } else {
                s[i]
            }),
{
    let mut s = s;
    proof {
        lemma_flip_bits(s[5]);
        lemma_flip_bits(s[6]);
        lemma_flip_bits(s[9]);
        lemma_flip_bits(s[10]);
    }
    s[5] ^= 0x10;
    s[6] ^= 0x10;
    s[9] ^= 0x10;
    s[10] ^= 0x10;
    s
}

fn shuffled(
    s: &[u8; 12],
    a: usize,
    b: usize,
    c: usize,
    d: usize,
    e: usize,
    f: usize,
    g: usize,
    h: usize,
    i: usize,
    j: usize,
    k: usize,
    l: usize,
) -> (r: [u8; 12])
    requires
        a < 12,
        b < 12,
        c < 12,
        d < 12,
        e < 12,
        f < 12,
        g < 12,
        h < 12,
        i < 12,
        j < 12,
        k < 12,
        l < 12,
    ensures
        r[0] == s[a as int],
        r[1] == s[b as int],
        r[2] == s[c as int],
        r[3] == s[d as int],
        r[4] == s[e as int],
        r[5] == s[f as int],
        r[6] == s[g as int],
        r[7] == s[h as int],
        r[8] == s[i as int],
        r[9] == s[j as int],
        r[10] == s[k as int],
        r[11] == s[l as int],
{
    [s[a], s[b], s[c], s[d], s[e], s[f], s[g], s[h], s[i], s[j], s[k], s[l]]
}

impl Edges {
    /// The twelve bytes, place by place.
    pub closed spec fn spec_state(&self) -> Seq<u8> {
        self.s@
    }

    /// The cubie at place `i`.
    pub open spec fn spec_cubie(&self, i: int) -> u8 {
        self.spec_state()[i] % 16
    }

    /// Whether the cubie at place `i` is flipped: 1 where it is.
    pub open spec fn spec_orientation(&self, i: int) -> u8 {
        self.spec_state()[i] / 16
    }

    /// The cubies, place by place.
    pub open spec fn spec_cubies(&self) -> Seq<u8> {
        Seq::new(12, |i: int| self.spec_cubie(i))
    }

    /// The orientations, place by place.
    pub open spec fn spec_orientations(&self) -> Seq<u8> {
        Seq::new(12, |i: int| self.spec_orientation(i))
    }

    fn cubie(&self, index: usize) -> (r: u8)
        requires
            index < 12,
        ensures
            r == self.spec_cubie(index as int),
    {
        proof {
            lemma_nibbles(self.s[index as int]);
        }
        self.s[index] & 0x0F
    }

    fn orientation(&self, index: usize) -> (r: u8)
        requires
            index < 12,
        ensures
            r == self.spec_orientation(index as int),
    {
        proof {
            lemma_nibbles(self.s[index as int]);
        }
        self.s[index] >> 4
    }

    pub fn cubies(&self) -> (r: [u8; 12])
        ensures
            r@ == self.spec_cubies(),
    {
        let mut c = [0u8;12];
        for i in 0..12
            invariant
                forall|j: int| 0 <= j < i ==> #[trigger] c[j] == self.spec_cubie(j),
        {
            c[i] = self.cubie(i);
        }
        proof {
            assert(c@ =~= self.spec_cubies());
        }
        c
    }

    fn orientations(&self) -> (r: [u8; 12])
        ensures
            r@ == self.spec_orientations(),
    {
        let mut o = [0u8;12];
        for i in 0..12
            invariant
                forall|j: int| 0 <= j < i ==> #[trigger] o[j] == self.spec_orientation(j),
        {
            o[i] = self.orientation(i);
        }
        proof {
            assert(o@ =~= self.spec_orientations());
        }
        o
    }

    pub fn solved() -> (r: Self)
        ensures
            r.spec_state() == seq![0u8, 1u8, 2u8, 3u8, 4u8, 5u8, 6u8, 7u8, 8u8, 9u8, 10u8, 11u8],
            r.well_formed(),
            r.spec_slice_prm_index() == 0,
            r.spec_non_slice_prm_index() == 0,
            r.spec_slice_loc_index() == 494,
            r.spec_ori_index() == 0,
    {
        let r = Self { s: [0, 1, 2, 3, 4, 5, 6, 7, 8, 9, 10, 11] };
        proof {
            assert(r.s@ =~= seq![0u8, 1u8, 2u8, 3u8, 4u8, 5u8, 6u8, 7u8, 8u8, 9u8, 10u8, 11u8]);
            assert(r.spec_cubies() =~= Seq::new(12, |i: int| i as u8));
            lemma_parts_in_order(12);
            lemma_rank_of_ascending(spec_part(r.spec_cubies(), true));
            lemma_rank_of_ascending(spec_part(r.spec_cubies(), false));
            lemma_rank_of_last_places();
            lemma_no_flip(r.spec_orientations(), 11);
        }
        r
    }

    pub fn is_solved(&self) -> (r: bool)
        ensures
            r == (self.spec_state() == seq![
                0u8,
                1u8,
                2u8,
                3u8,
                4u8,
                5u8,
                6u8,
                7u8,
                8u8,
                9u8,
                10u8,
                11u8,
            ]),
    {
        let solved = Self::solved();
        for i in 0..12
            invariant
                solved.s@ == seq![0u8, 1u8, 2u8, 3u8, 4u8, 5u8, 6u8, 7u8, 8u8, 9u8, 10u8, 11u8],
                forall|j: int| 0 <= j < i ==> self.s[j] == solved.s[j],
        {
            if self.s[i] != solved.s[i] {
                return false;
            }
        }
        proof {
            assert(self.s@ =~= solved.s@);
        }
        true
    }

    /// Whether the permutation of the cubies is even.
    pub fn is_even_permutation(&self) -> (r: bool)
        ensures
            r == (spec_inversions(self.spec_cubies()) % 2 == 0),
    {
        let c = self.cubies();
        is_even_permutation_array(c.as_slice())
    }

    /// The line that shows the cubies and then their orientations.
    pub fn to_string(&self) -> (line: String)
        ensures
            line@ == spec_cubies_line(self.spec_cubies(), self.spec_orientations()),
    {
        let c = self.cubies();
        let o = self.orientations();
        cubies_line(c.as_slice(), o.as_slice())
    }
}

proof fn lemma_nibbles(b: u8)
    by (bit_vector)
    ensures
        b & 0x0F == b % 16,
        b >> 4 == b / 16,
{
}

impl Twistable for Edges {
    open spec fn well_formed(&self) -> bool {
        edge_state_ok(self.spec_state())
    }

    closed spec fn spec_twisted(&self, t: Twist) -> Self {
        let n = edge_twisted_state(self.s@, t);
        Edges { s: [n[0], n[1], n[2], n[3], n[4], n[5], n[6], n[7], n[8], n[9], n[10], n[11]] }
    }

    fn twisted(&self, twist: Twist) -> (r: Self) {
        let s = match twist {
            Twist::L1 => self.turned_l1(),
            Twist::L2 => self.turned_l2(),
            Twist::L3 => self.turned_l3(),
            Twist::R1 => self.turned_r1(),
            Twist::R2 => self.turned_r2(),
            Twist::R3 => self.turned_r3(),
            Twist::U1 => self.turned_u1(),
            Twist::U2 => self.turned_u2(),
            Twist::U3 => self.turned_u3(),
            Twist::D1 => self.turned_d1(),
            Twist::D2 => self.turned_d2(),
            Twist::D3 => self.turned_d3(),
            Twist::F1 => self.turned_f1(),
            Twist::F2 => self.turned_f2(),
            Twist::F3 => self.turned_f3(),
            Twist::B1 => self.turned_b1(),
            Twist::B2 => self.turned_b2(),
            Twist::B3 => self.turned_b3(),
        };
        let r = Edges { s };
        proof {
            assert(r.s@ =~= self.spec_twisted(twist).s@);
            assert(r.s == self.spec_twisted(twist).s);
            lemma_twisted_state_ok(self.s@, twist);
        }
        r
    }
}

impl Edges {
    fn turned_l1(&self) -> (r: [u8; 12])
        requires
            self.well_formed(),
        ensures
            r@ == edge_twisted_state(self.spec_state(), Twist::L1),
    {
        let a = shuffled(&self.s, 0, 1, 2, 3, 11, 5, 6, 8, 4, 9, 10, 7);
        let b = ori_swap_l(a);
        proof {
            assert(b@ =~= edge_twisted_state(self.s@, Twist::L1));
        }
        b
    }

    fn turned_l2(&self) -> (r: [u8; 12])
        requires
            self.well_formed(),
        ensures
            r@ == edge_twisted_state(self.spec_state(), Twist::L2),
    {
        let a = shuffled(&self.s, 0, 1, 2, 3, 7, 5, 6, 4, 11, 9, 10, 8);
        proof {
            assert(a@ =~= edge_twisted_state(self.s@, Twist::L2));
        }
        a
    }

    fn turned_l3(&self) -> (r: [u8; 12])
        requires
            self.well_formed(),
        ensures
            r@ == edge_twisted_state(self.spec_state(), Twist::L3),
    {
        let a = shuffled(&self.s, 0, 1, 2, 3, 8, 5, 6, 11, 7, 9, 10, 4);
        let b = ori_swap_l(a);
        proof {
            assert(b@ =~= edge_twisted_state(self.s@, Twist::L3));
        }
        b
    }

    fn turned_r1(&self) -> (r: [u8; 12])
        requires
            self.well_formed(),
        ensures
            r@ == edge_twisted_state(self.spec_state(), Twist::R1),
    {
        let a = shuffled(&self.s, 0, 1, 2, 3, 4, 9, 10, 7, 8, 6, 5, 11);
        let b = ori_swap_r(a);
        proof {
            assert(b@ =~= edge_twisted_state(self.s@, Twist::R1));
        }
        b
    }

    fn turned_r2(&self) -> (r: [u8; 12])
        requires
            self.well_formed(),
        ensures
            r@ == edge_twisted_state(self.spec_state(), Twist::R2),
    {
        let a = shuffled(&self.s, 0, 1, 2, 3, 4, 6, 5, 7, 8, 10, 9, 11);
        proof {
            assert(a@ =~= edge_twisted_state(self.s@, Twist::R2));
        }
        a
    }

    fn turned_r3(&self) -> (r: [u8; 12])
        requires
            self.well_formed(),
        ensures
            r@ == edge_twisted_state(self.spec_state(), Twist::R3),
    {
        let a = shuffled(&self.s, 0, 1, 2, 3, 4, 10, 9, 7, 8, 5, 6, 11);
        let b = ori_swap_r(a);
        proof {
            assert(b@ =~= edge_twisted_state(self.s@, Twist::R3));
        }
        b
    }

    fn turned_u1(&self) -> (r: [u8; 12])
        requires
            self.well_formed(),
        ensures
            r@ == edge_twisted_state(self.spec_state(), Twist::U1),
    {
        let a = shuffled(&self.s, 5, 4, 2, 3, 0, 1, 6, 7, 8, 9, 10, 11);
        proof {
            assert(a@ =~= edge_twisted_state(self.s@, Twist::U1));
        }
        a
    }

    fn turned_u2(&self) -> (r: [u8; 12])
        requires
            self.well_formed(),
        ensures
            r@ == edge_twisted_state(self.spec_state(), Twist::U2),
    {
        let a = shuffled(&self.s, 1, 0, 2, 3, 5, 4, 6, 7, 8, 9, 10, 11);
        proof {
            assert(a@ =~= edge_twisted_state(self.s@, Twist::U2));
        }
        a
    }

    fn turned_u3(&self) -> (r: [u8; 12])
        requires
            self.well_formed(),
        ensures
            r@ == edge_twisted_state(self.spec_state(), Twist::U3),
    {
        let a = shuffled(&self.s, 4, 5, 2, 3, 1, 0, 6, 7, 8, 9, 10, 11);
        proof {
            assert(a@ =~= edge_twisted_state(self.s@, Twist::U3));
        }
        a
    }

    fn turned_d1(&self) -> (r: [u8; 12])
        requires
            self.well_formed(),
        ensures
            r@ == edge_twisted_state(self.spec_state(), Twist::D1),
    {
        let a = shuffled(&self.s, 0, 1, 6, 7, 4, 5, 3, 2, 8, 9, 10, 11);
        proof {
            assert(a@ =~= edge_twisted_state(self.s@, Twist::D1));
        }
        a
    }

    fn turned_d2(&self) -> (r: [u8; 12])
        requires
            self.well_formed(),
        ensures
            r@ == edge_twisted_state(self.spec_state(), Twist::D2),
    {
        let a = shuffled(&self.s, 0, 1, 3, 2, 4, 5, 7, 6, 8, 9, 10, 11);
        proof {
            assert(a@ =~= edge_twisted_state(self.s@, Twist::D2));
        }
        a
    }

    fn turned_d3(&self) -> (r: [u8; 12])
        requires
            self.well_formed(),
        ensures
            r@ == edge_twisted_state(self.spec_state(), Twist::D3),
    {
        let a = shuffled(&self.s, 0, 1, 7, 6, 4, 5, 2, 3, 8, 9, 10, 11);
        proof {
            assert(a@ =~= edge_twisted_state(self.s@, Twist::D3));
        }
        a
    }

    fn turned_f1(&self) -> (r: [u8; 12])
        requires
            self.well_formed(),
        ensures
            r@ == edge_twisted_state(self.spec_state(), Twist::F1),
    {
        let a = shuffled(&self.s, 8, 1, 2, 9, 4, 5, 6, 7, 3, 0, 10, 11);
        proof {
            assert(a@ =~= edge_twisted_state(self.s@, Twist::F1));
        }
        a
    }

    fn turned_f2(&self) -> (r: [u8; 12])
        requires
            self.well_formed(),
        ensures
            r@ == edge_twisted_state(self.spec_state(), Twist::F2),
    {
        let a = shuffled(&self.s, 3, 1, 2, 0, 4, 5, 6, 7, 9, 8, 10, 11);
        proof {
            assert(a@ =~= edge_twisted_state(self.s@, Twist::F2));
        }
        a
    }

    fn turned_f3(&self) -> (r: [u8; 12])
        requires
            self.well_formed(),
        ensures
            r@ == edge_twisted_state(self.spec_state(), Twist::F3),
    {
        let a = shuffled(&self.s, 9, 1, 2, 8, 4, 5, 6, 7, 0, 3, 10, 11);
        proof {
            assert(a@ =~= edge_twisted_state(self.s@, Twist::F3));
        }
        a
    }

    fn turned_b1(&self) -> (r: [u8; 12])
        requires
            self.well_formed(),
        ensures
            r@ == edge_twisted_state(self.spec_state(), Twist::B1),
    {
        let a = shuffled(&self.s, 0, 10, 11, 3, 4, 5, 6, 7, 8, 9, 2, 1);
        proof {
            assert(a@ =~= edge_twisted_state(self.s@, Twist::B1));
        }
        a
    }

    fn turned_b2(&self) -> (r: [u8; 12])
        requires
            self.well_formed(),
        ensures
            r@ == edge_twisted_state(self.spec_state(), Twist::B2),
    {
        let a = shuffled(&self.s, 0, 2, 1, 3, 4, 5, 6, 7, 8, 9, 11, 10);
        proof {
            assert(a@ =~= edge_twisted_state(self.s@, Twist::B2));
        }
        a
    }

    fn turned_b3(&self) -> (r: [u8; 12])
        requires
            self.well_formed(),
        ensures
            r@ == edge_twisted_state(self.spec_state(), Twist::B3),
    {
        let a = shuffled(&self.s, 0, 11, 10, 3, 4, 5, 6, 7, 8, 9, 1, 2);
        proof {
            assert(a@ =~= edge_twisted_state(self.s@, Twist::B3));
        }
        a
    }
}

/// A turn takes the cubies of its face from places of its face and leaves
/// every other cubie where it is.
proof fn lemma_source_stays_on_face(t: Twist, i: int)
    requires
        0 <= i < 12,
    ensures
        0 <= edge_source(t, i) < 12,
        edge_on_face(t.spec_face(), i) == edge_on_face(t.spec_face(), edge_source(t, i)),
        !edge_on_face(t.spec_face(), i) ==> edge_source(t, i) == i,
{
}

/// A turn leaves twelve different cubies.
pub proof fn lemma_twisted_state_ok(s: Seq<u8>, t: Twist)
    requires
        edge_state_ok(s),
    ensures
        edge_state_ok(edge_twisted_state(s, t)),
{
    let n = edge_twisted_state(s, t);
    assert forall|i: int| 0 <= i < 12 implies (#[trigger] n[i]) < 32 && n[i] % 16 < 12 && n[i] % 16
        == s[edge_source(t, i)] % 16 by {
        let b = s[edge_source(t, i)];
        assert(b < 32 && b % 16 < 12);
    }
    assert forall|i: int, j: int| 0 <= i < j < 12 implies n[i] % 16 != n[j] % 16 by {
        assert(edge_source(t, i) != edge_source(t, j));
        let a = edge_source(t, i);
        let b = edge_source(t, j);
        if a < b {
            assert(s[a] % 16 != s[b] % 16);
        } else {
            assert(s[b] % 16 != s[a] % 16);
        }
    }
}

/// Two values with the same bytes are the same value.
pub proof fn lemma_edges_equal(a: Edges, b: Edges)
    requires
        a.spec_state() == b.spec_state(),
    ensures
        a == b,
{
    assert(a.s@ =~= b.s@);
    assert(a.s == b.s);
}

/// The bytes after a turn are those that `edge_twisted_state` describes.
pub proof fn lemma_edges_twisted_state(c: Edges, t: Twist)
    ensures
        c.spec_twisted(t).spec_state() == edge_twisted_state(c.spec_state(), t),
{
    assert(c.spec_twisted(t).s@ =~= edge_twisted_state(c.s@, t));
}

proof fn lemma_state_twist_then_inverse(s: Seq<u8>, t: Twist)
    requires
        edge_state_ok(s),
    ensures
        edge_twisted_state(edge_twisted_state(s, t), spec_inversed(t)) == s,
{
    let u = spec_inversed(t);
    let m = edge_twisted_state(s, t);
    let e = edge_twisted_state(m, u);
    assert forall|i: int| 0 <= i < 12 implies e[i] == s[i] by {
        let k = edge_source(u, i);
        assert(edge_source(t, k) == i);
        assert(s[i] < 32);
    }
    assert(e =~= s);
}

/// A turn followed by the turn that undoes it leaves the edges as they were.
pub proof fn lemma_edges_twist_then_inverse(c: Edges, t: Twist)
    requires
        c.well_formed(),
    ensures
        c.spec_twisted(t).spec_twisted(spec_inversed(t)) == c,
{
    lemma_edges_twisted_state(c, t);
    lemma_edges_twisted_state(c.spec_twisted(t), spec_inversed(t));
    lemma_state_twist_then_inverse(c.spec_state(), t);
    lemma_edges_equal(c.spec_twisted(t).spec_twisted(spec_inversed(t)), c);
}

/// The half turn of the face that `t` turns.
pub open spec fn spec_half_turn(t: Twist) -> Twist {
    Twist::spec_from(t.spec_face() * 3 + 1)
}

proof fn lemma_state_half_turn_twice(s: Seq<u8>, t: Twist)
    requires
        edge_state_ok(s),
        t.spec_quarter_turns() == 2,
    ensures
        edge_twisted_state(edge_twisted_state(s, t), t) == s,
{
    let m = edge_twisted_state(s, t);
    let e = edge_twisted_state(m, t);
    assert forall|i: int| 0 <= i < 12 implies e[i] == s[i] by {
        let k = edge_source(t, i);
        assert(edge_source(t, k) == i);
    }
    assert(e =~= s);
}

proof fn lemma_state_quarter_turn_twice(s: Seq<u8>, t: Twist)
    requires
        edge_state_ok(s),
        t.spec_quarter_turns() != 2,
    ensures
        edge_twisted_state(edge_twisted_state(s, t), t) == edge_twisted_state(s, spec_half_turn(t)),
{
    let h = spec_half_turn(t);
    let m = edge_twisted_state(s, t);
    let e = edge_twisted_state(m, t);
    let w = edge_twisted_state(s, h);
    assert forall|i: int| 0 <= i < 12 implies e[i] == w[i] by {
        let k = edge_source(t, i);
        assert(edge_source(t, k) == edge_source(h, i));
        assert(s[edge_source(h, i)] < 32);
    }
    assert(e =~= w);
}

proof fn lemma_state_twist_four_times(s: Seq<u8>, t: Twist)
    requires
        edge_state_ok(s),
    ensures
        edge_twisted_state(
            edge_twisted_state(edge_twisted_state(edge_twisted_state(s, t), t), t),
            t,
        ) == s,
{
    let s1 = edge_twisted_state(s, t);
    let s2 = edge_twisted_state(s1, t);
    lemma_twisted_state_ok(s, t);
    lemma_twisted_state_ok(s1, t);
    if t.spec_quarter_turns() == 2 {
        lemma_state_half_turn_twice(s, t);
        lemma_state_half_turn_twice(s2, t);
    } else {
        let h = spec_half_turn(t);
        lemma_state_quarter_turn_twice(s, t);
        lemma_state_quarter_turn_twice(s2, t);
        lemma_state_half_turn_twice(s, h);
    }
}

/// Four times the same turn leaves the edges as they were.
pub proof fn lemma_edges_twist_four_times(c: Edges, t: Twist)
    requires
        c.well_formed(),
    ensures
        c.spec_twisted(t).spec_twisted(t).spec_twisted(t).spec_twisted(t) == c,
{
    let c1 = c.spec_twisted(t);
    let c2 = c1.spec_twisted(t);
    let c3 = c2.spec_twisted(t);
    let c4 = c3.spec_twisted(t);
    lemma_edges_twisted_state(c, t);
    lemma_edges_twisted_state(c1, t);
    lemma_edges_twisted_state(c2, t);
    lemma_edges_twisted_state(c3, t);
    lemma_state_twist_four_times(c.spec_state(), t);
    lemma_edges_equal(c4, c);
}

proof fn lemma_state_opposite_faces_commute(s: Seq<u8>, a: Twist, b: Twist)
    requires
        edge_state_ok(s),
        a.spec_face() / 2 == b.spec_face() / 2,
        a.spec_face() != b.spec_face(),
    ensures
        edge_twisted_state(edge_twisted_state(s, a), b) == edge_twisted_state(
            edge_twisted_state(s, b),
            a,
        ),
{
    let x = edge_twisted_state(edge_twisted_state(s, a), b);
    let y = edge_twisted_state(edge_twisted_state(s, b), a);
    assert forall|i: int| 0 <= i < 12 implies x[i] == y[i] by {
        let k = edge_source(b, i);
        let l = edge_source(a, i);
        lemma_source_stays_on_face(a, i);
        lemma_source_stays_on_face(b, i);
        lemma_source_stays_on_face(a, k);
        lemma_source_stays_on_face(b, l);
        assert(!(edge_on_face(a.spec_face(), i) && edge_on_face(b.spec_face(), i)));
        assert(!(edge_on_face(a.spec_face(), l) && edge_on_face(b.spec_face(), l)));
        assert(!(edge_on_face(a.spec_face(), k) && edge_on_face(b.spec_face(), k)));
    }
    assert(x =~= y);
}

/// Turns of two opposite faces can be made in either order.
pub proof fn lemma_edges_opposite_faces_commute(c: Edges, a: Twist, b: Twist)
    requires
        c.well_formed(),
        a.spec_face() / 2 == b.spec_face() / 2,
        a.spec_face() != b.spec_face(),
    ensures
        c.spec_twisted(a).spec_twisted(b) == c.spec_twisted(b).spec_twisted(a),
{
    lemma_edges_twisted_state(c, a);
    lemma_edges_twisted_state(c, b);
    lemma_edges_twisted_state(c.spec_twisted(a), b);
    lemma_edges_twisted_state(c.spec_twisted(b), a);
    lemma_state_opposite_faces_commute(c.spec_state(), a, b);
    lemma_edges_equal(c.spec_twisted(a).spec_twisted(b), c.spec_twisted(b).spec_twisted(a));
}

/// The cubies of `p` that belong to the middle slice, numbered from 0, in the
/// order in which they stand; or those that do not, where `slice` is false.
pub open spec fn spec_part(p: Seq<u8>, slice: bool) -> Seq<u8>
    decreases p.len(),
{
    if p.len() == 0 {
        Seq::empty()
    } else {
        let r = spec_part(p.drop_last(), slice);
        if slice && p.last() > 7 {
            r.push((p.last() - 8) as u8)
        } else if !slice && p.last() <= 7 {
            r.push(p.last())
        } else {
            r
        }
    }
}

/// The places of `p` that hold a cubie of the middle slice, in ascending order.
pub open spec fn spec_slice_places(p: Seq<u8>) -> Seq<u8>
    decreases p.len(),
{
    if p.len() == 0 {
        Seq::empty()
    } else {
        let r = spec_slice_places(p.drop_last());
        if p.last() > 7 {
            r.push((p.len() - 1) as u8)
        } else {
            r
        }
    }
}

/// The weight of the orientation at place `i` in the orientation index: 2^i.
pub open spec fn edge_weight(i: int) -> int {
    if i == 0 {
        1
    } else if i == 1 {
        2
    } else if i == 2 {
        4
    } else if i == 3 {
        8
    } else if i == 4 {
        16
    } else if i == 5 {
        32
    } else if i == 6 {
        64
    } else if i == 7 {
        128
    } else if i == 8 {
        256
    } else if i == 9 {
        512
    } else if i == 10 {
        1024
    } else {
        2048
    }
}

/// The first `n` orientations read as binary digits, lowest first.
pub open spec fn spec_ori_value(o: Seq<u8>, n: int) -> int
    decreases n,
{
    if n <= 0 {
        0
    } else {
        spec_ori_value(o, n - 1) + if o[n - 1] != 0 {
            edge_weight(n - 1)
        } else {
            0
        }
    }
}

/// How many cubies each part has.
pub proof fn lemma_part_len(p: Seq<u8>)
    ensures
        spec_part(p, true).len() == p.len() - count_less(p, 8),
        spec_part(p, false).len() == count_less(p, 8),
        spec_slice_places(p).len() == spec_part(p, true).len(),
    decreases p.len(),
{
    if p.len() > 0 {
        lemma_part_len(p.drop_last());
    }
}

/// Every cubie of a part stands somewhere in the whole.
pub proof fn lemma_part_origin(p: Seq<u8>, slice: bool, a: int)
    requires
        0 <= a < spec_part(p, slice).len(),
    ensures
        exists|k: int|
            0 <= k < p.len() && (#[trigger] p[k] > 7) == slice && p[k] == spec_part(p, slice)[a] + (
            if slice {
                8int
            } else {
                0int
            }),
    decreases p.len(),
{
    if p.len() > 0 {
        let q = p.drop_last();
        let taken = (slice && p.last() > 7) || (!slice && p.last() <= 7);
        if taken && a == spec_part(q, slice).len() {
            let k = p.len() - 1;
            assert((p[k] > 7) == slice);
        } else {
            lemma_part_origin(q, slice, a);
            let k = choose|k: int|
                0 <= k < q.len() && (#[trigger] q[k] > 7) == slice && q[k] == spec_part(q, slice)[a]
                    + (if slice {
                    8int
                } else {
                    0int
                });
            assert((p[k] > 7) == slice);
        }
    }
}

/// The cubies of a part are as different as those of the whole.
pub proof fn lemma_part_distinct(p: Seq<u8>, slice: bool)
    requires
        forall|i: int, j: int| 0 <= i < j < p.len() ==> p[i] != p[j],
    ensures
        forall|a: int, b: int|
            0 <= a < b < spec_part(p, slice).len() ==> spec_part(p, slice)[a] != spec_part(
                p,
                slice,
            )[b],
    decreases p.len(),
{
    if p.len() > 0 {
        let q = p.drop_last();
        lemma_part_distinct(q, slice);
        let part = spec_part(p, slice);
        assert forall|a: int, b: int| 0 <= a < b < part.len() implies part[a] != part[b] by {
            if b == spec_part(q, slice).len() {
                lemma_part_origin(q, slice, a);
                let k = choose|k: int|
                    0 <= k < q.len() && (#[trigger] q[k] > 7) == slice && q[k] == spec_part(
                        q,
                        slice,
                    )[a] + (if slice {
                        8int
                    } else {
                        0int
                    });
                assert(p[k] != p[p.len() - 1]);
            }
        }
    }
}

/// The places of the slice cubies ascend, and each holds a slice cubie.
pub proof fn lemma_slice_places(p: Seq<u8>)
    requires
        p.len() <= 256,
    ensures
        is_ascending(spec_slice_places(p)),
        forall|a: int|
            0 <= a < spec_slice_places(p).len() ==> (#[trigger] spec_slice_places(p)[a] as int)
                < p.len() && p[spec_slice_places(p)[a] as int] > 7,
    decreases p.len(),
{
    if p.len() > 0 {
        lemma_slice_places(p.drop_last());
    }
}

/// Among twelve different cubies the two parts are a permutation of 0..4 and
/// one of 0..8, and the slice cubies stand at four places.
pub proof fn lemma_parts_of_permutation(p: Seq<u8>)
    requires
        p.len() == 12,
        is_permutation(p),
    ensures
        spec_part(p, true).len() == 4,
        spec_part(p, false).len() == 8,
        is_permutation(spec_part(p, true)),
        is_permutation(spec_part(p, false)),
        spec_slice_places(p).len() == 4,
        is_combination(12, spec_slice_places(p)),
{
    lemma_part_len(p);
    lemma_permutation_count_less(p, 8);
    lemma_part_distinct(p, true);
    lemma_part_distinct(p, false);
    lemma_slice_places(p);
    assert forall|a: int| 0 <= a < 4 implies (#[trigger] spec_part(p, true)[a]) < 4 by {
        lemma_part_origin(p, true, a);
    }
    assert forall|a: int| 0 <= a < 8 implies (#[trigger] spec_part(p, false)[a]) < 8 by {
        lemma_part_origin(p, false, a);
    }
}

/// A part of the first `i` cubies is no longer than the part of all.
pub proof fn lemma_part_of_prefix(p: Seq<u8>, i: int)
    requires
        0 <= i <= p.len(),
    ensures
        spec_part(p.take(i), true).len() <= spec_part(p, true).len(),
        spec_part(p.take(i), false).len() <= spec_part(p, false).len(),
        spec_slice_places(p.take(i)).len() <= spec_slice_places(p).len(),
{
    lemma_part_len(p);
    lemma_part_len(p.take(i));
    assert(p =~= p.take(i) + p.skip(i));
    lemma_count_less_concat(p.take(i), p.skip(i), 8);
    lemma_count_less_bound(p.skip(i), 8);
}

proof fn lemma_or_shift(index: u16, o: u16, i: u16)
    by (bit_vector)
    requires
        i < 11,
        o <= 1,
        index < (1u16 << i),
    ensures
        (index | (o << i)) == (if o == 1 {
            (index + (1u16 << i)) as u16
        } else {
            index
        }),
        (index | (o << i)) < (1u16 << ((i + 1) as u16)),
{
}

proof fn lemma_weights(i: u16)
    by (bit_vector)
    requires
        i <= 11,
    ensures
        i == 0 ==> (1u16 << i) == 1,
        i == 1 ==> (1u16 << i) == 2,
        i == 2 ==> (1u16 << i) == 4,
        i == 3 ==> (1u16 << i) == 8,
        i == 4 ==> (1u16 << i) == 16,
        i == 5 ==> (1u16 << i) == 32,
        i == 6 ==> (1u16 << i) == 64,
        i == 7 ==> (1u16 << i) == 128,
        i == 8 ==> (1u16 << i) == 256,
        i == 9 ==> (1u16 << i) == 512,
        i == 10 ==> (1u16 << i) == 1024,
        i == 11 ==> (1u16 << i) == 2048,
{
}

impl Edges {
    /// The number of permutations of the four slice cubies.
    pub const SLICE_PRM_SIZE: u8 = 24;

    /// The number of permutations of the eight other cubies.
    pub const NON_SLICE_PRM_SIZE: u16 = 40320;

    /// The number of ways in which four of twelve places hold the slice cubies.
    pub const SLICE_LOC_SIZE: u16 = 495;

    /// The number of orientations of the edges.
    pub const ORI_SIZE: u16 = 2048;

    /// The rank of the permutation of the slice cubies among themselves.
    pub open spec fn spec_slice_prm_index(&self) -> nat {
        spec_permutation_index(spec_part(self.spec_cubies(), true))
    }

    /// The rank of the permutation of the other cubies among themselves.
    pub open spec fn spec_non_slice_prm_index(&self) -> nat {
        spec_permutation_index(spec_part(self.spec_cubies(), false))
    }

    /// The rank of the four places that hold the slice cubies.
    pub open spec fn spec_slice_loc_index(&self) -> nat {
        spec_combination_index(12, spec_slice_places(self.spec_cubies()))
    }

    /// The first eleven orientations read as binary digits, lowest first.
    pub open spec fn spec_ori_index(&self) -> int {
        spec_ori_value(self.spec_orientations(), 11)
    }

    /// The cubies of a well-formed value are a permutation of 0..12.
    pub proof fn lemma_cubies_permutation(&self)
        requires
            self.well_formed(),
        ensures
            self.spec_cubies().len() == 12,
            is_permutation(self.spec_cubies()),
    {
        let p = self.spec_cubies();
        assert forall|i: int| 0 <= i < p.len() implies (#[trigger] p[i] as int) < p.len() by {
            assert(self.spec_state()[i] % 16 < 12);
        }
    }

    /// Get the slice permutation index (0 to SLICE_PRM_SIZE - 1).
    pub fn slice_prm_index(&self) -> (r: u8)
        requires
            self.well_formed(),
        ensures
            r == self.spec_slice_prm_index(),
            r < 24,
    {
        let ghost p = self.spec_cubies();
        proof {
            self.lemma_cubies_permutation();
            lemma_parts_of_permutation(p);
            assert(p.take(0) =~= Seq::<u8>::empty());
        }
        let mut slice: [u8; 4] = [0;4];
        let mut i: usize = 0;
        let mut j: usize = 0;
        while i < 12
            invariant
                0 <= i <= 12,
                p == self.spec_cubies(),
                p.len() == 12,
                spec_part(p, true).len() == 4,
                j == spec_part(p.take(i as int), true).len(),
                forall|l: int| 0 <= l < j ==> slice[l] == spec_part(p.take(i as int), true)[l],
            decreases 12 - i,
        {
            proof {
                lemma_part_of_prefix(p, i + 1);
                assert(p.take(i + 1).drop_last() =~= p.take(i as int));
            }
            if self.cubie(i) > 7 {
                slice[j] = self.cubie(i) - 8;
                j += 1;
            }
            i += 1;
        }
        proof {
            assert(p.take(12) =~= p);
            assert(slice@ =~= spec_part(p, true));
            lemma_permutation_index_bound(slice@);
            lemma_factorial_table(4);
        }
        permutation_index(slice.as_slice()) as u8
    }

    /// Get the non-slice permutation index (0 to NON_SLICE_PRM_SIZE - 1).
    pub fn non_slice_prm_index(&self) -> (r: u16)
        requires
            self.well_formed(),
        ensures
            r == self.spec_non_slice_prm_index(),
            r < 40320,
    {
        let ghost p = self.spec_cubies();
        proof {
            self.lemma_cubies_permutation();
            lemma_parts_of_permutation(p);
            assert(p.take(0) =~= Seq::<u8>::empty());
        }
        let mut non_slice: [u8; 8] = [0;8];
        let mut i: usize = 0;
        let mut j: usize = 0;
        while i < 12
            invariant
                0 <= i <= 12,
                p == self.spec_cubies(),
                p.len() == 12,
                spec_part(p, false).len() == 8,
                j == spec_part(p.take(i as int), false).len(),
                forall|l: int| 0 <= l < j ==> non_slice[l] == spec_part(p.take(i as int), false)[l],
            decreases 12 - i,
        {
            proof {
                lemma_part_of_prefix(p, i + 1);
                assert(p.take(i + 1).drop_last() =~= p.take(i as int));
            }
            if self.cubie(i) <= 7 {
                non_slice[j] = self.cubie(i);
                j += 1;
            }
            i += 1;
        }
        proof {
            assert(p.take(12) =~= p);
            assert(non_slice@ =~= spec_part(p, false));
            lemma_permutation_index_bound(non_slice@);
            lemma_factorial_table(8);
        }
        permutation_index(non_slice.as_slice()) as u16
    }

    /// Get the slice location index (0 to SLICE_LOC_SIZE - 1).
    pub fn slice_loc_index(&self) -> (r: u16)
        requires
            self.well_formed(),
        ensures
            r == self.spec_slice_loc_index(),
            r < 495,
    {
        let ghost p = self.spec_cubies();
        proof {
            self.lemma_cubies_permutation();
            lemma_parts_of_permutation(p);
            assert(p.take(0) =~= Seq::<u8>::empty());
        }
        let mut loc: [u8; 4] = [0;4];
        let mut i: usize = 0;
        let mut j: usize = 0;
        while i < 12
            invariant
                0 <= i <= 12,
                p == self.spec_cubies(),
                p.len() == 12,
                spec_slice_places(p).len() == 4,
                j == spec_slice_places(p.take(i as int)).len(),
                forall|l: int| 0 <= l < j ==> loc[l] == spec_slice_places(p.take(i as int))[l],
            decreases 12 - i,
        {
            proof {
                lemma_part_of_prefix(p, i + 1);
                assert(p.take(i + 1).drop_last() =~= p.take(i as int));
            }
            if self.cubie(i) > 7 {
                loc[j] = i as u8;
                j += 1;
            }
            i += 1;
        }
        proof {
            assert(p.take(12) =~= p);
            assert(loc@ =~= spec_slice_places(p));
            lemma_pascal_table(12, 4);
        }
        combination_index(12, loc.as_slice()) as u16
    }

    /// Get the orientation index (0 to ORI_SIZE - 1).
    pub fn ori_index(&self) -> (r: u16)
        requires
            self.well_formed(),
        ensures
            r == self.spec_ori_index(),
            r < 2048,
    {
        let mut index: u16 = 0;
        proof {
            lemma_weights(0);
        }
        for i in 0..11
            invariant
                self.well_formed(),
                index == spec_ori_value(self.spec_orientations(), i as int),
                index < (1u16 << (i as u16)),
        {
            let o = self.orientation(i) as u16;
            proof {
                assert(self.spec_state()[i as int] < 32);
                lemma_or_shift(index, o, i as u16);
                lemma_weights(i as u16);
                lemma_weights((i + 1) as u16);
            }
            index |= o << (i as u16);
        }
        proof {
            lemma_weights(11);
        }
        index
    }
}

/// The cubies `base` with the first `k` of the slice cubies `slice` put in, one
/// after the other, each at its place of `places`.
pub open spec fn spec_interleave(base: Seq<u8>, slice: Seq<u8>, places: Seq<u8>, k: int) -> Seq<u8>
    decreases k,
{
    if k <= 0 {
        base
    } else {
        spec_interleave(base, slice, places, k - 1).insert(
            places[k - 1] as int,
            (slice[k - 1] + 8) as u8,
        )
    }
}

/// The twelve cubies that the three indices stand for: the slice cubies in the
/// order of the permutation with index `slice_prm`, at the places of the choice
/// with index `slice_loc`, and the others between them in the order of the
/// permutation with index `non_slice_prm`.
pub open spec fn edge_cubies_of(slice_prm: int, non_slice_prm: int, slice_loc: int) -> Seq<u8> {
    spec_interleave(
        spec_nth_permutation(non_slice_prm as nat, 8),
        spec_nth_permutation(slice_prm as nat, 4),
        spec_nth_combination(12, 4, slice_loc as nat),
        4,
    )
}

/// The twelve orientations that the orientation index `ori` stands for: its
/// eleven binary digits, lowest first, and a twelfth that makes the number of
/// flipped cubies even.
pub open spec fn edge_orientations_of(ori: int) -> Seq<u8> {
    Seq::new(
        12,
        |i: int|
            if i < 11 {
                if bit_is_set(ori as u64, i) {
                    1u8
                } else {
                    0u8
                }
            } else {
                (count_set_below(ori as u64, 64) % 2) as u8
            },
    )
}

/// The bytes of the edges that the four indices stand for.
pub open spec fn edge_state_of(slice_prm: int, non_slice_prm: int, slice_loc: int, ori: int) -> Seq<
    u8,
> {
    Seq::new(
        12,
        |i: int|
            (edge_cubies_of(slice_prm, non_slice_prm, slice_loc)[i] + 16 * edge_orientations_of(
                ori,
            )[i]) as u8,
    )
}

/// Putting the slice cubies in leaves different cubies, each below 12.
#[verifier::rlimit(50)]
pub proof fn lemma_interleave(base: Seq<u8>, slice: Seq<u8>, places: Seq<u8>, k: int)
    requires
        base.len() == 8,
        is_permutation(base),
        slice.len() == 4,
        is_permutation(slice),
        places.len() == 4,
        is_combination(12, places),
        0 <= k <= 4,
    ensures
        spec_interleave(base, slice, places, k).len() == 8 + k,
        k > 0 ==> places[k - 1] <= 8 + (k - 1),
        forall|i: int|
            0 <= i < 8 + k ==> (#[trigger] spec_interleave(base, slice, places, k)[i]) < 8 || exists|
                j: int,
            |
                0 <= j < k && spec_interleave(base, slice, places, k)[i] == slice[j] + 8,
        forall|i: int, j: int|
            0 <= i < j < 8 + k ==> spec_interleave(base, slice, places, k)[i] != spec_interleave(
                base,
                slice,
                places,
                k,
            )[j],
    decreases k,
{
    if k > 0 {
        lemma_interleave(base, slice, places, k - 1);
        let r = spec_interleave(base, slice, places, k - 1);
        let q = places[k - 1] as int;
        let x = (slice[k - 1] + 8) as u8;
        let n = spec_interleave(base, slice, places, k);
        assert(places[0] < places[1] && places[1] < places[2] && places[2] < places[3]);
        assert(places[3] < 12);
        assert(0 <= q <= r.len());
        assert(n =~= r.insert(q, x));
        assert(n.len() == r.len() + 1);
        assert forall|i: int| 0 <= i < 8 + k implies n[i] == (if i < q {
            r[i]
        } else if i == q {
            x
        } else {
            r[i - 1]
        }) by {}
        assert forall|i: int| 0 <= i < 8 + k implies (#[trigger] n[i]) < 8 || exists|j: int|
            0 <= j < k && n[i] == slice[j] + 8 by {
            if i == q {
                assert(n[i] == slice[k - 1] + 8);
            } else {
                let w = if i < q {
                    i
                } else {
                    i - 1
                };
                assert(n[i] == r[w]);
                if r[w] >= 8 {
                    let j = choose|j: int| 0 <= j < k - 1 && r[w] == slice[j] + 8;
                    assert(0 <= j < k && n[i] == slice[j] + 8);
                }
            }
        }
        assert forall|i: int| 0 <= i < 8 + k - 1 implies (#[trigger] r[i]) != x by {
            if r[i] >= 8 {
                let j = choose|j: int| 0 <= j < k - 1 && r[i] == slice[j] + 8;
                assert(slice[j] != slice[k - 1]);
            }
        }
        assert forall|i: int, j: int| 0 <= i < j < 8 + k implies n[i] != n[j] by {
            let wi = if i < q {
                i
            } else {
                i - 1
            };
            let wj = if j < q {
                j
            } else {
                j - 1
            };
            if i == q {
                assert(n[j] == r[wj]);
            } else if j == q {
                assert(n[i] == r[wi]);
            } else {
                assert(n[i] == r[wi] && n[j] == r[wj]);
                assert(wi < wj);
            }
        }
    }
}

proof fn lemma_pack(cubie: u8, orientation: u8)
    by (bit_vector)
    requires
        cubie < 16,
        orientation < 2,
    ensures
        cubie | (orientation << 4) == cubie + 16 * orientation,
        (orientation << 4) == 16 * orientation,
{
}

proof fn lemma_digit(ori: u16, i: u16)
    by (bit_vector)
    requires
        i < 16,
    ensures
        (ori >> i) & 1 <= 1,
        ((ori >> i) & 1 == 1) <==> (((ori as u64) >> (i as u64)) & 1 == 1),
{
}

impl Edges {
    /// The edges that the four indices stand for.
    pub closed spec fn spec_from_index(
        slice_prm: int,
        non_slice_prm: int,
        slice_loc: int,
        ori: int,
    ) -> Edges {
        let n = edge_state_of(slice_prm, non_slice_prm, slice_loc, ori);
        Edges { s: [n[0], n[1], n[2], n[3], n[4], n[5], n[6], n[7], n[8], n[9], n[10], n[11]] }
    }

    fn new(cubies: [u8; 12], orientations: [u8; 12]) -> (r: Self)
        requires
            forall|i: int| 0 <= i < 12 ==> (#[trigger] cubies[i]) < 16,
            forall|i: int| 0 <= i < 12 ==> (#[trigger] orientations[i]) < 2,
        ensures
            forall|i: int|
                0 <= i < 12 ==> (#[trigger] r.spec_state()[i]) == cubies[i] + 16 * orientations[i],
    {
        proof {
            assert forall|i: int| 0 <= i < 12 implies (#[trigger] cubies[i]) | (orientations[i] << 4)
                == cubies[i] + 16 * orientations[i] && (orientations[i] << 4) == 16
                * orientations[i] by {
                lemma_pack(cubies[i], orientations[i]);
            }
        }
        Self {
            s: [
                cubies[0] | (orientations[0] << 4),
                cubies[1] | (orientations[1] << 4),
                cubies[2] | (orientations[2] << 4),
                cubies[3] | (orientations[3] << 4),
                cubies[4] | (orientations[4] << 4),
                cubies[5] | (orientations[5] << 4),
                cubies[6] | (orientations[6] << 4),
                cubies[7] | (orientations[7] << 4),
                cubies[8] | (orientations[8] << 4),
                cubies[9] | (orientations[9] << 4),
                cubies[10] | (orientations[10] << 4),
                cubies[11] | (orientations[11] << 4),
            ],
        }
    }

    /// Constructs an `Edges` instance from the given indices.
    /// - `slice_prm`: Slice permutation index (0 to SLICE_PRM_SIZE - 1).
    /// - `non_slice_prm`: Non-slice permutation index (0 to NON_SLICE_PRM_SIZE - 1).
    /// - `slice_loc_index`: Slice location index (0 to SLICE_LOC_SIZE - 1).
    /// - `ori`: Orientation index (0 to ORI_SIZE - 1).
    #[verifier::rlimit(50)]
    pub fn from_index(slice_prm: u8, non_slice_prm: u16, slice_loc_index: u16, ori: u16) -> (r:
        Self)
        requires
            slice_prm < 24,
            non_slice_prm < 40320,
            slice_loc_index < 495,
            ori < 2048,
        ensures
            r == Edges::spec_from_index(
                slice_prm as int,
                non_slice_prm as int,
                slice_loc_index as int,
                ori as int,
            ),
            r.spec_state() == edge_state_of(
                slice_prm as int,
                non_slice_prm as int,
                slice_loc_index as int,
                ori as int,
            ),
            r.well_formed(),
            r.spec_cubies() == edge_cubies_of(
                slice_prm as int,
                non_slice_prm as int,
                slice_loc_index as int,
            ),
            r.spec_orientations() == edge_orientations_of(ori as int),
            r.spec_slice_prm_index() == slice_prm,
            r.spec_non_slice_prm_index() == non_slice_prm,
            r.spec_slice_loc_index() == slice_loc_index,
            r.spec_ori_index() == ori,
    {
        let c = decode_cubies(slice_prm, non_slice_prm, slice_loc_index);
        let o = decode_orientations(ori);
        let r = Self::new(c, o);
        proof {
            let want = edge_state_of(
                slice_prm as int,
                non_slice_prm as int,
                slice_loc_index as int,
                ori as int,
            );
            let same = Edges::spec_from_index(
                slice_prm as int,
                non_slice_prm as int,
                slice_loc_index as int,
                ori as int,
            );
            assert forall|i: int| 0 <= i < 12 implies r.spec_state()[i] == want[i] by {
                assert(c[i] < 12);
                assert(o[i] < 2);
            }
            assert(r.spec_state() =~= want);
            lemma_edge_state_of(
                slice_prm as int,
                non_slice_prm as int,
                slice_loc_index as int,
                ori as int,
            );
            lemma_edges_equal(r, same);
            crate::consistency::lemma_indices_of_edges(
                slice_prm as int,
                non_slice_prm as int,
                slice_loc_index as int,
                ori as int,
            );
            assert(same.spec_cubies() =~= c@);
            assert(same.spec_orientations() =~= o@);
        }
        r
    }
}

/// The twelve cubies that the three indices stand for.
#[verifier::rlimit(50)]
fn decode_cubies(slice_prm: u8, non_slice_prm: u16, slice_loc_index: u16) -> (c: [u8; 12])
    requires
        slice_prm < 24,
        non_slice_prm < 40320,
        slice_loc_index < 495,
    ensures
        c@ == edge_cubies_of(slice_prm as int, non_slice_prm as int, slice_loc_index as int),
        forall|i: int| 0 <= i < 12 ==> (#[trigger] c[i]) < 12,
        forall|i: int, j: int| 0 <= i < j < 12 ==> c[i] != c[j],
{
    let ghost base = spec_nth_permutation(non_slice_prm as nat, 8);
    let ghost inner = spec_nth_permutation(slice_prm as nat, 4);
    let ghost places = spec_nth_combination(12, 4, slice_loc_index as nat);
    proof {
        lemma_factorial_table(8);
        lemma_factorial_table(4);
        lemma_pascal_table(12, 4);
        lemma_nth_permutation(non_slice_prm as nat, 8);
        lemma_nth_permutation(slice_prm as nat, 4);
        lemma_nth_combination(12, 4, slice_loc_index as nat);
    }
    let slice_loc = nth_combination(12, 4, slice_loc_index as i64);
    let non_slice = nth_permutation(non_slice_prm as i64, 8);
    let slice = nth_permutation(slice_prm as i64, 4);

    let mut e = non_slice;
    for i in 0..4
        invariant
            base.len() == 8,
            is_permutation(base),
            inner.len() == 4,
            is_permutation(inner),
            places.len() == 4,
            is_combination(12, places),
            slice@ == inner,
            slice_loc@ == places,
            e@ == spec_interleave(base, inner, places, i as int),
    {
        proof {
            lemma_interleave(base, inner, places, i as int);
            lemma_interleave(base, inner, places, i + 1);
        }
        e.insert(slice_loc[i] as usize, slice[i] + 8);
    }
    proof {
        lemma_interleave(base, inner, places, 4);
    }
    let c: [u8; 12] = [e[0], e[1], e[2], e[3], e[4], e[5], e[6], e[7], e[8], e[9], e[10], e[11]];
    proof {
        assert(c@ =~= e@);
    }
    c
}

/// The twelve orientations that the orientation index `ori` stands for.
fn decode_orientations(ori: u16) -> (o: [u8; 12])
    requires
        ori < 2048,
    ensures
        o@ == edge_orientations_of(ori as int),
        forall|i: int| 0 <= i < 12 ==> (#[trigger] o[i]) < 2,
{
    let mut o = [0u8;12];
    for i in 0..11
        invariant
            forall|j: int| 0 <= j < i ==> #[trigger] o[j] == edge_orientations_of(ori as int)[j],
            forall|j: int| i <= j < 12 ==> #[trigger] o[j] == 0,
    {
        proof {
            lemma_digit(ori, i as u16);
        }
        o[i] = ((ori >> (i as u16)) & 1) as u8;
    }
    o[11] = ((ori as u64).count_ones() % 2) as u8;
    proof {
        assert(o@ =~= edge_orientations_of(ori as int));
    }
    o
}

/// The edges with every cubie at its own place and none flipped are well
/// formed, and their indices are 0 but for that of the places of the slice
/// cubies, which is 494.
pub proof fn lemma_solved_edges(e: Edges)
    requires
        e.spec_state() == seq![0u8, 1u8, 2u8, 3u8, 4u8, 5u8, 6u8, 7u8, 8u8, 9u8, 10u8, 11u8],
    ensures
        e.well_formed(),
        e.spec_slice_prm_index() == 0,
        e.spec_non_slice_prm_index() == 0,
        e.spec_slice_loc_index() == 494,
        e.spec_ori_index() == 0,
{
    assert(e.spec_cubies() =~= Seq::new(12, |i: int| i as u8));
    lemma_parts_in_order(12);
    lemma_rank_of_ascending(spec_part(e.spec_cubies(), true));
    lemma_rank_of_ascending(spec_part(e.spec_cubies(), false));
    lemma_rank_of_last_places();
    lemma_no_flip(e.spec_orientations(), 11);
}

/// The cubies that three indices stand for are twelve different cubies.
pub proof fn lemma_edge_cubies_of(slice_prm: int, non_slice_prm: int, slice_loc: int)
    requires
        0 <= slice_prm < 24,
        0 <= non_slice_prm < 40320,
        0 <= slice_loc < 495,
    ensures
        edge_cubies_of(slice_prm, non_slice_prm, slice_loc).len() == 12,
        forall|i: int|
            0 <= i < 12 ==> (#[trigger] edge_cubies_of(slice_prm, non_slice_prm, slice_loc)[i]) < 12,
        forall|i: int, j: int|
            0 <= i < j < 12 ==> edge_cubies_of(slice_prm, non_slice_prm, slice_loc)[i]
                != edge_cubies_of(slice_prm, non_slice_prm, slice_loc)[j],
{
    let base = spec_nth_permutation(non_slice_prm as nat, 8);
    let inner = spec_nth_permutation(slice_prm as nat, 4);
    let places = spec_nth_combination(12, 4, slice_loc as nat);
    lemma_factorial_table(8);
    lemma_factorial_table(4);
    lemma_pascal_table(12, 4);
    lemma_nth_permutation(non_slice_prm as nat, 8);
    lemma_nth_permutation(slice_prm as nat, 4);
    lemma_nth_combination(12, 4, slice_loc as nat);
    lemma_interleave(base, inner, places, 4);
    let cubies = edge_cubies_of(slice_prm, non_slice_prm, slice_loc);
    assert forall|i: int| 0 <= i < 12 implies (#[trigger] cubies[i]) < 12 by {
        if cubies[i] >= 8 {
            let j = choose|j: int| 0 <= j < 4 && cubies[i] == inner[j] + 8;
            assert(inner[j] < 4);
        }
    }
}

/// Bytes made of twelve different cubies, each flipped or not, are well
/// formed, and hold these cubies and flips.
proof fn lemma_state_of_parts(cubies: Seq<u8>, flips: Seq<u8>, want: Seq<u8>)
    requires
        cubies.len() == 12,
        flips.len() == 12,
        want.len() == 12,
        forall|i: int| 0 <= i < 12 ==> (#[trigger] cubies[i]) < 12,
        forall|i: int, j: int| 0 <= i < j < 12 ==> cubies[i] != cubies[j],
        forall|i: int| 0 <= i < 12 ==> (#[trigger] flips[i]) < 2,
        forall|i: int| 0 <= i < 12 ==> #[trigger] want[i] == (cubies[i] + 16 * flips[i]) as u8,
    ensures
        edge_state_ok(want),
        forall|i: int|
            0 <= i < 12 ==> (#[trigger] want[i]) % 16 == cubies[i] && want[i] / 16 == flips[i],
{
    assert forall|i: int| 0 <= i < 12 implies (#[trigger] want[i]) % 16 == cubies[i] && want[i] / 16
        == flips[i] && want[i] < 32 && want[i] % 16 < 12 by {
        assert(cubies[i] < 12);
        assert(flips[i] < 2);
    }
    assert forall|i: int, j: int| 0 <= i < j < 12 implies want[i] % 16 != want[j] % 16 by {
        assert(cubies[i] != cubies[j]);
    }
}

/// The bytes that `edge_state_of` gives are those of twelve different cubies:
/// those that the three indices of the permutation stand for, each flipped or
/// not as the orientation index says.
pub proof fn lemma_edge_state_of(slice_prm: int, non_slice_prm: int, slice_loc: int, ori: int)
    requires
        0 <= slice_prm < 24,
        0 <= non_slice_prm < 40320,
        0 <= slice_loc < 495,
        0 <= ori < 2048,
    ensures
        edge_state_ok(edge_state_of(slice_prm, non_slice_prm, slice_loc, ori)),
        Edges::spec_from_index(slice_prm, non_slice_prm, slice_loc, ori).spec_state()
            == edge_state_of(slice_prm, non_slice_prm, slice_loc, ori),
        edge_cubies_of(slice_prm, non_slice_prm, slice_loc).len() == 12,
        forall|i: int|
            0 <= i < 12 ==> (#[trigger] edge_state_of(slice_prm, non_slice_prm, slice_loc, ori)[i])
                % 16 == edge_cubies_of(slice_prm, non_slice_prm, slice_loc)[i] && edge_state_of(
                slice_prm,
                non_slice_prm,
                slice_loc,
                ori,
            )[i] / 16 == edge_orientations_of(ori)[i],
{
    let cubies = edge_cubies_of(slice_prm, non_slice_prm, slice_loc);
    let flips = edge_orientations_of(ori);
    let want = edge_state_of(slice_prm, non_slice_prm, slice_loc, ori);
    lemma_edge_cubies_of(slice_prm, non_slice_prm, slice_loc);
    assert forall|i: int| 0 <= i < 12 implies (#[trigger] flips[i]) < 2 by {}
    lemma_state_of_parts(cubies, flips, want);
    lemma_state_of_indices(slice_prm, non_slice_prm, slice_loc, ori);
}

proof fn lemma_state_of_indices(slice_prm: int, non_slice_prm: int, slice_loc: int, ori: int)
    ensures
        Edges::spec_from_index(slice_prm, non_slice_prm, slice_loc, ori).spec_state()
            == edge_state_of(slice_prm, non_slice_prm, slice_loc, ori),
{
    assert(Edges::spec_from_index(slice_prm, non_slice_prm, slice_loc, ori).s@ =~= edge_state_of(
        slice_prm,
        non_slice_prm,
        slice_loc,
        ori,
    ));
}

/// The parts of the cubies 0, 1, .., n - 1 in this order: the first eight are
/// the cubies outside the slice, and what follows stands at the places from 8 on.
proof fn lemma_parts_in_order(n: int)
    requires
        0 <= n <= 12,
    ensures
        spec_part(Seq::new(n as nat, |i: int| i as u8), false) == Seq::new(
            (if n < 8 {
                n
            } else {
                8
            }) as nat,
            |i: int| i as u8,
        ),
        spec_part(Seq::new(n as nat, |i: int| i as u8), true) == Seq::new(
            (if n < 8 {
                0
            } else {
                n - 8
            }) as nat,
            |i: int| i as u8,
        ),
        spec_slice_places(Seq::new(n as nat, |i: int| i as u8)) == Seq::new(
            (if n < 8 {
                0
            } else {
                n - 8
            }) as nat,
            |i: int| (i + 8) as u8,
        ),
    decreases n,
{
    let p = Seq::new(n as nat, |i: int| i as u8);
    if n > 0 {
        lemma_parts_in_order(n - 1);
        assert(p.drop_last() =~= Seq::new((n - 1) as nat, |i: int| i as u8));
        assert(p.last() == (n - 1) as u8);
    }
    assert(spec_part(p, false) =~= Seq::new(
        (if n < 8 {
            n
        } else {
            8
        }) as nat,
        |i: int| i as u8,
    ));
    assert(spec_part(p, true) =~= Seq::new(
        (if n < 8 {
            0
        } else {
            n - 8
        }) as nat,
        |i: int| i as u8,
    ));
    assert(spec_slice_places(p) =~= Seq::new(
        (if n < 8 {
            0
        } else {
            n - 8
        }) as nat,
        |i: int| (i + 8) as u8,
    ));
}

/// The last four of twelve places are the choice of rank 494.
pub proof fn lemma_rank_of_last_places()
    ensures
        spec_combination_index(12, Seq::new(4, |i: int| (i + 8) as u8)) == 494,
{
    let c = Seq::new(4, |i: int| (i + 8) as u8);
    let c1 = c.skip(1);
    let c2 = c1.skip(1);
    let c3 = c2.skip(1);
    let c4 = c3.skip(1);
    assert(c4.len() == 0);
    assert(spec_combination_rank(12, c4, 12) == 0);
    assert(spec_skipped(12, 0, 11, 11) == 0);
    assert(spec_combination_rank(12, c3, 11) == 0);
    assert(spec_skipped(12, 1, 10, 10) == 0);
    assert(spec_combination_rank(12, c2, 10) == 0);
    assert(spec_skipped(12, 2, 9, 9) == 0);
    assert(spec_combination_rank(12, c1, 9) == 0);
    lemma_pascal_table(4, 3);
    lemma_pascal_table(5, 3);
    lemma_pascal_table(6, 3);
    lemma_pascal_table(7, 3);
    lemma_pascal_table(8, 3);
    lemma_pascal_table(9, 3);
    lemma_pascal_table(10, 3);
    lemma_pascal_table(11, 3);
    assert(spec_skipped(12, 3, 8, 8) == 0);
    assert(spec_skipped(12, 3, 7, 8) == 4);
    assert(spec_skipped(12, 3, 6, 8) == 14);
    assert(spec_skipped(12, 3, 5, 8) == 34);
    assert(spec_skipped(12, 3, 4, 8) == 69);
    assert(spec_skipped(12, 3, 3, 8) == 125);
    assert(spec_skipped(12, 3, 2, 8) == 209);
    assert(spec_skipped(12, 3, 1, 8) == 329);
    assert(spec_skipped(12, 3, 0, 8) == 494);
}

/// Where no cubie is flipped the orientation index is 0.
proof fn lemma_no_flip(o: Seq<u8>, n: int)
    requires
        0 <= n <= o.len(),
        forall|i: int| 0 <= i < o.len() ==> o[i] == 0,
    ensures
        spec_ori_value(o, n) == 0,
    decreases n,
{
    if n > 0 {
        lemma_no_flip(o, n - 1);
    }
}

} // verus!
