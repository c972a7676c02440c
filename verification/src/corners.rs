//! The eight corner cubies: where each one sits and how it is turned.
//!
//! Corner numbering scheme:
//! ```text
//!      2---------3
//!     /|        /|
//!    / |       / |
//!   0---------1  |
//!   |  |      |  |
//!   |  6------|--7
//!   | /       | /
//!   |/        |/
//!   4---------5
//! ```

use crate::math::{
    lemma_factorial_table, lemma_nth_permutation, lemma_permutation_index_bound,
    lemma_rank_of_ascending, nth_permutation, permutation_index, spec_nth_permutation,
    spec_permutation_index,
};
use crate::text::{cubies_line, spec_cubies_line};
use crate::twist::{spec_inversed, Twist, Twistable};
use vstd::prelude::*;

verus! {

/// The corner pieces of the cube. Each byte stands for one place and holds the
/// cubie that sits there in its low four bits (0 to 7) and the cubie's
/// orientation in its high four bits (0 to 2).
#[derive(Debug, Clone, Copy, PartialEq, Eq, PartialOrd, Ord)]
pub struct Corners {
    s: [u8; 8],
}

/// The place whose cubie the turn `t` brings to place `i`.
pub open spec fn corner_source(t: Twist, i: int) -> int {
    match t {
        Twist::L1 => if i == 0 {
            2
        } else if i == 2 {
            6
        } else if i == 4 {
            0
        } else if i == 6 {
            4
        } else {
            i
        },
        Twist::L2 => if i == 0 {
            6
        } else if i == 2 {
            4
        } else if i == 4 {
            2
        } else if i == 6 {
            0
        } else {
            i
        },
        Twist::L3 => if i == 0 {
            4
        } else if i == 2 {
            0
        } else if i == 4 {
            6
        } else if i == 6 {
            2
        } else {
            i
        },
        Twist::R1 => if i == 1 {
            5
        } else if i == 3 {
            1
        } else if i == 5 {
            7
        } else if i == 7 {
            3
        } else {
            i
        },
        Twist::R2 => if i == 1 {
            7
        } else if i == 3 {
            5
        } else if i == 5 {
            3
        } else if i == 7 {
            1
        } else {
            i
        },
        Twist::R3 => if i == 1 {
            3
        } else if i == 3 {
            7
        } else if i == 5 {
            1
        } else if i == 7 {
            5
        } else {
            i
        },
        Twist::U1 => if i == 0 {
            1
        } else if i == 1 {
            3
        } else if i == 2 {
            0
        } else if i == 3 {
            2
        } else {
            i
        },
        Twist::U2 => if i == 0 {
            3
        } else if i == 1 {
            2
        } else if i == 2 {
            1
        } else if i == 3 {
            0
        } else {
            i
        },
        Twist::U3 => if i == 0 {
            2
        } else if i == 1 {
            0
        } else if i == 2 {
            3
        } else if i == 3 {
            1
        } else {
            i
        },
        Twist::D1 => if i == 4 {
            6
        } else if i == 5 {
            4
        } else if i == 6 {
            7
        } else if i == 7 {
            5
        } else {
            i
        },
        Twist::D2 => if i == 4 {
            7
        } else if i == 5 {
            6
        } else if i == 6 {
            5
        } else if i == 7 {
            4
        } else {
            i
        },
        Twist::D3 => if i == 4 {
            5
        } else if i == 5 {
            7
        } else if i == 6 {
            4
        } else if i == 7 {
            6
        } else {
            i
        },
        Twist::F1 => if i == 0 {
            4
        } else if i == 1 {
            0
        } else if i == 4 {
            5
        } else if i == 5 {
            1
        } else {
            i
        },
        Twist::F2 => if i == 0 {
            5
        } else if i == 1 {
            4
        } else if i == 4 {
            1
        } else if i == 5 {
            0
        } else {
            i
        },
        Twist::F3 => if i == 0 {
            1
        } else if i == 1 {
            5
        } else if i == 4 {
            0
        } else if i == 5 {
            4
        } else {
            i
        },
        Twist::B1 => if i == 2 {
            3
        } else if i == 3 {
            7
        } else if i == 6 {
            2
        } else if i == 7 {
            6
        } else {
            i
        },
        Twist::B2 => if i == 2 {
            7
        } else if i == 3 {
            6
        } else if i == 6 {
            3
        } else if i == 7 {
            2
        } else {
            i
        },
        Twist::B3 => if i == 2 {
            6
        } else if i == 3 {
            2
        } else if i == 6 {
            7
        } else if i == 7 {
            3
        } else {
            i
        },
    }
}

/// Whether a quarter turn of `face` changes the orientation of the cubie that
/// it brings to place `i`: whether the place lies on that face.
pub open spec fn corner_on_face(face: int, i: int) -> bool {
    if face == 0 {
        i % 2 == 0
    } else if face == 1 {
        i % 2 == 1
    } else if face == 2 {
        i < 4
    } else if face == 3 {
        i >= 4
    } else if face == 4 {
        i % 4 < 2
    } else {
        i % 4 >= 2
    }
}

/// The byte `b` with orientations 0 and 1 exchanged.
pub open spec fn spec_ori_swap_0_1(b: u8) -> u8 {
    if b < 16 {
        (b + 16) as u8
    } else if b < 32 {
        (b - 16) as u8
    } else {
        b
    }
}

/// The byte `b` with orientations 0 and 2 exchanged.
pub open spec fn spec_ori_swap_0_2(b: u8) -> u8 {
    if b < 16 {
        (b + 32) as u8
    } else if 32 <= b < 48 {
        (b - 32) as u8
    } else {
        b
    }
}

/// The byte `b` with orientations 1 and 2 exchanged.
pub open spec fn spec_ori_swap_1_2(b: u8) -> u8 {
    if 16 <= b < 32 {
        (b + 16) as u8
    } else if 32 <= b < 48 {
        (b - 16) as u8
    } else {
        b
    }
}

/// What a quarter turn of `face` makes of the byte of a cubie on that face: a
/// turn of L or R exchanges orientations 0 and 2, one of U or D exchanges 1 and
/// 2, one of F or B exchanges 0 and 1.
pub open spec fn corner_ori_swap(face: int, b: u8) -> u8 {
    if face < 2 {
        spec_ori_swap_0_2(b)
    } else if face < 4 {
        spec_ori_swap_1_2(b)
    } else {
        spec_ori_swap_0_1(b)
    }
}

/// The bytes of the corners after the turn `t`: the cubies move as
/// `corner_source` says, and a quarter turn changes the orientation of those
/// that it moves.
pub open spec fn corner_twisted_state(s: Seq<u8>, t: Twist) -> Seq<u8> {
    Seq::new(
        8,
        |i: int|
            if t.spec_quarter_turns() != 2 && corner_on_face(t.spec_face(), i) {
                corner_ori_swap(t.spec_face(), s[corner_source(t, i)])
            } else {
                s[corner_source(t, i)]
            },
    )
}

/// Whether the bytes are those of eight different cubies, each in one of its
/// three orientations.
pub open spec fn corner_state_ok(s: Seq<u8>) -> bool {
    &&& s.len() == 8
    &&& forall|i: int| 0 <= i < 8 ==> (#[trigger] s[i]) < 48 && s[i] % 16 < 8
    &&& forall|i: int, j: int| 0 <= i < j < 8 ==> s[i] % 16 != s[j] % 16
}

proof fn lemma_ori_swap_bits(state: u8)
    by (bit_vector)
    requires
        state < 48,
    ensures
        ((((!state) & 0x20) >> 1) ^ state) == (if state < 16 {
            (state + 16) as u8
        } else if state < 32 {
            (state - 16) as u8
        } else {
            state
        }),
        (state & 0x30) <= 0x20,
        (((0x20 - (state & 0x30)) as u8) | (state & 0x0F)) == (if state < 16 {
            (state + 32) as u8
        } else if 32 <= state {
            (state - 32) as u8
        } else {
            state
        }),
        ((state & 0x0F) | ((state & 0x20) >> 1) | ((state & 0x10) << 1)) == (if 16 <= state
            && state < 32 {
            (state + 16) as u8
        } else if 32 <= state {
            (state - 16) as u8
        } else {
            state
        }),
{
}

fn ori_swap_0_1(state: u8) -> (r: u8)
    requires
        state < 48,
    ensures
        r == spec_ori_swap_0_1(state),
{
    proof {
        lemma_ori_swap_bits(state);
    }
    (((!state) & 0x20) >> 1) ^ state
}

fn ori_swap_0_2(state: u8) -> (r: u8)
    requires
        state < 48,
    ensures
        r == spec_ori_swap_0_2(state),
{
    proof {
        lemma_ori_swap_bits(state);
    }
    (0x20 - (state & 0x30)) | (state & 0x0F)
}

fn ori_swap_1_2(state: u8) -> (r: u8)
    requires
        state < 48,
    ensures
        r == spec_ori_swap_1_2(state),
{
    proof {
        lemma_ori_swap_bits(state);
    }
    let l = (state & 0x20) >> 1;
    let r = (state & 0x10) << 1;
    (state & 0x0F) | l | r
}

fn ori_swap_l(s: [u8; 8]) -> (r: [u8; 8])
    requires
        forall|i: int| 0 <= i < 8 ==> (#[trigger] s[i]) < 48,
    ensures
        forall|i: int|
            0 <= i < 8 ==> #[trigger] r[i] == (if corner_on_face(0, i) {
                corner_ori_swap(0, s[i])
            } else {
                s[i]
            }),
{
    let mut s = s;
    s[0] = ori_swap_0_2(s[0]);
    s[2] = ori_swap_0_2(s[2]);
    s[4] = ori_swap_0_2(s[4]);
    s[6] = ori_swap_0_2(s[6]);
    s
}

fn ori_swap_r(s: [u8; 8]) -> (r: [u8; 8])
    requires
        forall|i: int| 0 <= i < 8 ==> (#[trigger] s[i]) < 48,
    ensures
        forall|i: int|
            0 <= i < 8 ==> #[trigger] r[i] == (if corner_on_face(1, i) {
                corner_ori_swap(1, s[i])
            } else {
                s[i]
            }),
{
    let mut s = s;
    s[1] = ori_swap_0_2(s[1]);
    s[3] = ori_swap_0_2(s[3]);
    s[5] = ori_swap_0_2(s[5]);
    s[7] = ori_swap_0_2(s[7]);
    s
}

fn ori_swap_u(s: [u8; 8]) -> (r: [u8; 8])
    requires
        forall|i: int| 0 <= i < 8 ==> (#[trigger] s[i]) < 48,
    ensures
        forall|i: int|
            0 <= i < 8 ==> #[trigger] r[i] == (if corner_on_face(2, i) {
                corner_ori_swap(2, s[i])
            } else {
                s[i]
            }),
{
    let mut s = s;
    s[0] = ori_swap_1_2(s[0]);
    s[1] = ori_swap_1_2(s[1]);
    s[2] = ori_swap_1_2(s[2]);
    s[3] = ori_swap_1_2(s[3]);
    s
}

fn ori_swap_d(s: [u8; 8]) -> (r: [u8; 8])
    requires
        forall|i: int| 0 <= i < 8 ==> (#[trigger] s[i]) < 48,
    ensures
        forall|i: int|
            0 <= i < 8 ==> #[trigger] r[i] == (if corner_on_face(3, i) {
                corner_ori_swap(3, s[i])
            } else {
                s[i]
            }),
{
    let mut s = s;
    s[4] = ori_swap_1_2(s[4]);
    s[5] = ori_swap_1_2(s[5]);
    s[6] = ori_swap_1_2(s[6]);
    s[7] = ori_swap_1_2(s[7]);
    s
}

fn ori_swap_f(s: [u8; 8]) -> (r: [u8; 8])
    requires
        forall|i: int| 0 <= i < 8 ==> (#[trigger] s[i]) < 48,
    ensures
        forall|i: int|
            0 <= i < 8 ==> #[trigger] r[i] == (if corner_on_face(4, i) {
                corner_ori_swap(4, s[i])
            } else {
                s[i]
            }),
{
    let mut s = s;
    s[0] = ori_swap_0_1(s[0]);
    s[1] = ori_swap_0_1(s[1]);
    s[4] = ori_swap_0_1(s[4]);
    s[5] = ori_swap_0_1(s[5]);
    s
}

fn ori_swap_b(s: [u8; 8]) -> (r: [u8; 8])
    requires
        forall|i: int| 0 <= i < 8 ==> (#[trigger] s[i]) < 48,
    ensures
        forall|i: int|
            0 <= i < 8 ==> #[trigger] r[i] == (if corner_on_face(5, i) {
                corner_ori_swap(5, s[i])
            } else {
                s[i]
            }),
{
    let mut s = s;
    s[2] = ori_swap_0_1(s[2]);
    s[3] = ori_swap_0_1(s[3]);
    s[6] = ori_swap_0_1(s[6]);
    s[7] = ori_swap_0_1(s[7]);
    s
}

fn shuffled(
    s: &[u8; 8],
    a: usize,
    b: usize,
    c: usize,
    d: usize,
    e: usize,
    f: usize,
    g: usize,
    h: usize,
) -> (r: [u8; 8])
    requires
        a < 8,
        b < 8,
        c < 8,
        d < 8,
        e < 8,
        f < 8,
        g < 8,
        h < 8,
    ensures
        r[0] == s[a as int],
        r[1] == s[b as int],
        r[2] == s[c as int],
        r[3] == s[d as int],
        r[4] == s[e as int],
        r[5] == s[f as int],
        r[6] == s[g as int],
        r[7] == s[h as int],
{
    [s[a], s[b], s[c], s[d], s[e], s[f], s[g], s[h]]
}

impl Corners {
    /// The eight bytes, place by place.
    pub closed spec fn spec_state(&self) -> Seq<u8> {
        self.s@
    }

    /// The cubie at place `i`.
    pub open spec fn spec_cubie(&self, i: int) -> u8 {
        self.spec_state()[i] % 16
    }

    /// The orientation of the cubie at place `i`.
    pub open spec fn spec_orientation(&self, i: int) -> u8 {
        self.spec_state()[i] / 16
    }

    /// The cubies, place by place.
    pub open spec fn spec_cubies(&self) -> Seq<u8> {
        Seq::new(8, |i: int| self.spec_cubie(i))
    }

    /// The orientations, place by place.
    pub open spec fn spec_orientations(&self) -> Seq<u8> {
        Seq::new(8, |i: int| self.spec_orientation(i))
    }

    pub fn solved() -> (r: Self)
        ensures
            r.spec_state() == seq![0u8, 1u8, 2u8, 3u8, 4u8, 5u8, 6u8, 7u8],
            r.well_formed(),
            r.spec_prm_index() == 0,
            r.spec_ori_index() == 0,
    {
        let r = Self { s: [0, 1, 2, 3, 4, 5, 6, 7] };
        proof {
            assert(r.s@ =~= seq![0u8, 1u8, 2u8, 3u8, 4u8, 5u8, 6u8, 7u8]);
            lemma_rank_of_ascending(r.spec_cubies());
        }
        r
    }

    fn cubie(&self, index: usize) -> (r: u8)
        requires
            index < 8,
        ensures
            r == self.spec_cubie(index as int),
    {
        proof {
            lemma_nibbles(self.s[index as int]);
        }
        self.s[index] & 0x0F
    }

    fn orientation(&self, index: usize) -> (r: u8)
        requires
            index < 8,
        ensures
            r == self.spec_orientation(index as int),
    {
        proof {
            lemma_nibbles(self.s[index as int]);
        }
        self.s[index] >> 4
    }

    fn cubies(&self) -> (r: [u8; 8])
        ensures
            r@ == self.spec_cubies(),
    {
        let mut c = [0u8;8];
        for i in 0..8
            invariant
                forall|j: int| 0 <= j < i ==> #[trigger] c[j] == self.spec_cubie(j),
        {
            c[i] = self.cubie(i);
        }
        proof {
            assert(c@ =~= self.spec_cubies());
        }
        c
    }

    fn orientations(&self) -> (r: [u8; 8])
        ensures
            r@ == self.spec_orientations(),
    {
        let mut o = [0u8;8];
        for i in 0..8
            invariant
                forall|j: int| 0 <= j < i ==> #[trigger] o[j] == self.spec_orientation(j),
        {
            o[i] = self.orientation(i);
        }
        proof {
            assert(o@ =~= self.spec_orientations());
        }
        o
    }

    /// The line that shows the cubies and then their orientations.
    pub fn to_string(&self) -> (line: String)
        ensures
            line@ == spec_cubies_line(self.spec_cubies(), self.spec_orientations()),
    {
        let c = self.cubies();
        let o = self.orientations();
        cubies_line(c.as_slice(), o.as_slice())
    }
}

proof fn lemma_nibbles(b: u8)
    by (bit_vector)
    ensures
        b & 0x0F == b % 16,
        b >> 4 == b / 16,
{
}

impl Twistable for Corners {
    open spec fn well_formed(&self) -> bool {
        corner_state_ok(self.spec_state())
    }

    closed spec fn spec_twisted(&self, t: Twist) -> Self {
        let n = corner_twisted_state(self.s@, t);
        Corners { s: [n[0], n[1], n[2], n[3], n[4], n[5], n[6], n[7]] }
    }

    fn twisted(&self, twist: Twist) -> (r: Self) {
        let s = match twist {
            Twist::L1 => self.turned_l1(),
            Twist::L2 => self.turned_l2(),
            Twist::L3 => self.turned_l3(),
            Twist::R1 => self.turned_r1(),
            Twist::R2 => self.turned_r2(),
            Twist::R3 => self.turned_r3(),
            Twist::U1 => self.turned_u1(),
            Twist::U2 => self.turned_u2(),
            Twist::U3 => self.turned_u3(),
            Twist::D1 => self.turned_d1(),
            Twist::D2 => self.turned_d2(),
            Twist::D3 => self.turned_d3(),
            Twist::F1 => self.turned_f1(),
            Twist::F2 => self.turned_f2(),
            Twist::F3 => self.turned_f3(),
            Twist::B1 => self.turned_b1(),
            Twist::B2 => self.turned_b2(),
            Twist::B3 => self.turned_b3(),
        };
        let r = Corners { s };
        proof {
            assert(r.s@ =~= self.spec_twisted(twist).s@);
            assert(r.s == self.spec_twisted(twist).s);
            lemma_twisted_state_ok(self.s@, twist);
        }
        r
    }
}

impl Corners {
    fn turned_l1(&self) -> (r: [u8; 8])
        requires
            self.well_formed(),
        ensures
            r@ == corner_twisted_state(self.spec_state(), Twist::L1),
    {
        let a = shuffled(&self.s, 2, 1, 6, 3, 0, 5, 4, 7);
        let b = ori_swap_l(a);
        proof {
            assert(b@ =~= corner_twisted_state(self.s@, Twist::L1));
        }
        b
    }

    fn turned_l2(&self) -> (r: [u8; 8])
        requires
            self.well_formed(),
        ensures
            r@ == corner_twisted_state(self.spec_state(), Twist::L2),
    {
        let a = shuffled(&self.s, 6, 1, 4, 3, 2, 5, 0, 7);
        proof {
            assert(a@ =~= corner_twisted_state(self.s@, Twist::L2));
        }
        a
    }

    fn turned_l3(&self) -> (r: [u8; 8])
        requires
            self.well_formed(),
        ensures
            r@ == corner_twisted_state(self.spec_state(), Twist::L3),
    {
        let a = shuffled(&self.s, 4, 1, 0, 3, 6, 5, 2, 7);
        let b = ori_swap_l(a);
        proof {
            assert(b@ =~= corner_twisted_state(self.s@, Twist::L3));
        }
        b
    }

    fn turned_r1(&self) -> (r: [u8; 8])
        requires
            self.well_formed(),
        ensures
            r@ == corner_twisted_state(self.spec_state(), Twist::R1),
    {
        let a = shuffled(&self.s, 0, 5, 2, 1, 4, 7, 6, 3);
        let b = ori_swap_r(a);
        proof {
            assert(b@ =~= corner_twisted_state(self.s@, Twist::R1));
        }
        b
    }

    fn turned_r2(&self) -> (r: [u8; 8])
        requires
            self.well_formed(),
        ensures
            r@ == corner_twisted_state(self.spec_state(), Twist::R2),
    {
        let a = shuffled(&self.s, 0, 7, 2, 5, 4, 3, 6, 1);
        proof {
            assert(a@ =~= corner_twisted_state(self.s@, Twist::R2));
        }
        a
    }

    fn turned_r3(&self) -> (r: [u8; 8])
        requires
            self.well_formed(),
        ensures
            r@ == corner_twisted_state(self.spec_state(), Twist::R3),
    {
        let a = shuffled(&self.s, 0, 3, 2, 7, 4, 1, 6, 5);
        let b = ori_swap_r(a);
        proof {
            assert(b@ =~= corner_twisted_state(self.s@, Twist::R3));
        }
        b
    }

    fn turned_u1(&self) -> (r: [u8; 8])
        requires
            self.well_formed(),
        ensures
            r@ == corner_twisted_state(self.spec_state(), Twist::U1),
    {
        let a = shuffled(&self.s, 1, 3, 0, 2, 4, 5, 6, 7);
        let b = ori_swap_u(a);
        proof {
            assert(b@ =~= corner_twisted_state(self.s@, Twist::U1));
        }
        b
    }

    fn turned_u2(&self) -> (r: [u8; 8])
        requires
            self.well_formed(),
        ensures
            r@ == corner_twisted_state(self.spec_state(), Twist::U2),
    {
        let a = shuffled(&self.s, 3, 2, 1, 0, 4, 5, 6, 7);
        proof {
            assert(a@ =~= corner_twisted_state(self.s@, Twist::U2));
        }
        a
    }

    fn turned_u3(&self) -> (r: [u8; 8])
        requires
            self.well_formed(),
        ensures
            r@ == corner_twisted_state(self.spec_state(), Twist::U3),
    {
        let a = shuffled(&self.s, 2, 0, 3, 1, 4, 5, 6, 7);
        let b = ori_swap_u(a);
        proof {
            assert(b@ =~= corner_twisted_state(self.s@, Twist::U3));
        }
        b
    }

    fn turned_d1(&self) -> (r: [u8; 8])
        requires
            self.well_formed(),
        ensures
            r@ == corner_twisted_state(self.spec_state(), Twist::D1),
    {
        let a = shuffled(&self.s, 0, 1, 2, 3, 6, 4, 7, 5);
        let b = ori_swap_d(a);
        proof {
            assert(b@ =~= corner_twisted_state(self.s@, Twist::D1));
        }
        b
    }

    fn turned_d2(&self) -> (r: [u8; 8])
        requires
            self.well_formed(),
        ensures
            r@ == corner_twisted_state(self.spec_state(), Twist::D2),
    {
        let a = shuffled(&self.s, 0, 1, 2, 3, 7, 6, 5, 4);
        proof {
            assert(a@ =~= corner_twisted_state(self.s@, Twist::D2));
        }
        a
    }

    fn turned_d3(&self) -> (r: [u8; 8])
        requires
            self.well_formed(),
        ensures
            r@ == corner_twisted_state(self.spec_state(), Twist::D3),
    {
        let a = shuffled(&self.s, 0, 1, 2, 3, 5, 7, 4, 6);
        let b = ori_swap_d(a);
        proof {
            assert(b@ =~= corner_twisted_state(self.s@, Twist::D3));
        }
        b
    }

    fn turned_f1(&self) -> (r: [u8; 8])
        requires
            self.well_formed(),
        ensures
            r@ == corner_twisted_state(self.spec_state(), Twist::F1),
    {
        let a = shuffled(&self.s, 4, 0, 2, 3, 5, 1, 6, 7);
        let b = ori_swap_f(a);
        proof {
            assert(b@ =~= corner_twisted_state(self.s@, Twist::F1));
        }
        b
    }

    fn turned_f2(&self) -> (r: [u8; 8])
        requires
            self.well_formed(),
        ensures
            r@ == corner_twisted_state(self.spec_state(), Twist::F2),
    {
        let a = shuffled(&self.s, 5, 4, 2, 3, 1, 0, 6, 7);
        proof {
            assert(a@ =~= corner_twisted_state(self.s@, Twist::F2));
        }
        a
    }

    fn turned_f3(&self) -> (r: [u8; 8])
        requires
            self.well_formed(),
        ensures
            r@ == corner_twisted_state(self.spec_state(), Twist::F3),
    {
        let a = shuffled(&self.s, 1, 5, 2, 3, 0, 4, 6, 7);
        let b = ori_swap_f(a);
        proof {
            assert(b@ =~= corner_twisted_state(self.s@, Twist::F3));
        }
        b
    }

    fn turned_b1(&self) -> (r: [u8; 8])
        requires
            self.well_formed(),
        ensures
            r@ == corner_twisted_state(self.spec_state(), Twist::B1),
    {
        let a = shuffled(&self.s, 0, 1, 3, 7, 4, 5, 2, 6);
        let b = ori_swap_b(a);
        proof {
            assert(b@ =~= corner_twisted_state(self.s@, Twist::B1));
        }
        b
    }

    fn turned_b2(&self) -> (r: [u8; 8])
        requires
            self.well_formed(),
        ensures
            r@ == corner_twisted_state(self.spec_state(), Twist::B2),
    {
        let a = shuffled(&self.s, 0, 1, 7, 6, 4, 5, 3, 2);
        proof {
            assert(a@ =~= corner_twisted_state(self.s@, Twist::B2));
        }
        a
    }

    fn turned_b3(&self) -> (r: [u8; 8])
        requires
            self.well_formed(),
        ensures
            r@ == corner_twisted_state(self.spec_state(), Twist::B3),
    {
        let a = shuffled(&self.s, 0, 1, 6, 2, 4, 5, 7, 3);
        let b = ori_swap_b(a);
        proof {
            assert(b@ =~= corner_twisted_state(self.s@, Twist::B3));
        }
        b
    }
}

/// A turn leaves eight different cubies, each in one of its orientations.
pub proof fn lemma_twisted_state_ok(s: Seq<u8>, t: Twist)
    requires
        corner_state_ok(s),
    ensures
        corner_state_ok(corner_twisted_state(s, t)),
{
    let n = corner_twisted_state(s, t);
    assert forall|i: int| 0 <= i < 8 implies (#[trigger] n[i]) < 48 && n[i] % 16 < 8 && n[i] % 16
        == s[corner_source(t, i)] % 16 by {
        let b = s[corner_source(t, i)];
        assert(b < 48 && b % 16 < 8);
    }
    assert forall|i: int, j: int| 0 <= i < j < 8 implies n[i] % 16 != n[j] % 16 by {
        assert(corner_source(t, i) != corner_source(t, j));
        let a = corner_source(t, i);
        let b = corner_source(t, j);
        if a < b {
            assert(s[a] % 16 != s[b] % 16);
        } else {
            assert(s[b] % 16 != s[a] % 16);
        }
    }
}

/// The eight orientations that the orientation index `ori` stands for: its
/// seven digits in base 3, lowest first, and the eighth that they determine.
pub open spec fn corner_orientations_of(ori: int) -> Seq<u8> {
    let o0 = ori % 3;
    let o1 = (ori / 3) % 3;
    let o2 = (ori / 9) % 3;
    let o3 = (ori / 27) % 3;
    let o4 = (ori / 81) % 3;
    let o5 = (ori / 243) % 3;
    let o6 = (ori / 729) % 3;
    let o7 = (12 + o0 - o1 - o2 + o3 - o4 + o5 + o6) % 3;
    seq![o0 as u8, o1 as u8, o2 as u8, o3 as u8, o4 as u8, o5 as u8, o6 as u8, o7 as u8]
}

/// The bytes of the corners with permutation index `prm` and orientation
/// index `ori`.
pub open spec fn corner_state_of(prm: int, ori: int) -> Seq<u8> {
    Seq::new(
        8,
        |i: int| (spec_nth_permutation(prm as nat, 8)[i] + 16 * corner_orientations_of(ori)[i]) as u8,
    )
}

proof fn lemma_pack(cubie: u8, orientation: u8)
    by (bit_vector)
    requires
        cubie < 16,
        orientation < 16,
    ensures
        cubie | (orientation << 4) == cubie + 16 * orientation,
{
}

impl Corners {
    /// The number of permutations of the corners.
    pub const PRM_SIZE: u16 = 40320;

    /// The number of orientations of the corners.
    pub const ORI_SIZE: u16 = 2187;

    /// The number of states of the corners.
    pub const INDEX_SIZE: u32 = 88179840;

    /// The rank of the permutation of the cubies.
    pub open spec fn spec_prm_index(&self) -> nat {
        spec_permutation_index(self.spec_cubies())
    }

    /// The first seven orientations read as digits in base 3, lowest first.
    pub open spec fn spec_ori_index(&self) -> int {
        self.spec_orientation(0) + self.spec_orientation(1) * 3 + self.spec_orientation(2) * 9
            + self.spec_orientation(3) * 27 + self.spec_orientation(4) * 81 + self.spec_orientation(
            5,
        ) * 243 + self.spec_orientation(6) * 729
    }

    /// The corners with permutation index `prm` and orientation index `ori`.
    pub closed spec fn spec_from_index(prm: int, ori: int) -> Corners {
        let n = corner_state_of(prm, ori);
        Corners { s: [n[0], n[1], n[2], n[3], n[4], n[5], n[6], n[7]] }
    }

    fn new(corners: [u8; 8], orientations: [u8; 8]) -> (r: Self)
        requires
            forall|i: int| 0 <= i < 8 ==> (#[trigger] corners[i]) < 16,
            forall|i: int| 0 <= i < 8 ==> (#[trigger] orientations[i]) < 3,
        ensures
            forall|i: int| 0 <= i < 8 ==> (#[trigger] r.spec_state()[i]) == corners[i] + 16 * orientations[i],
    {
        proof {
            assert forall|i: int| 0 <= i < 8 implies (#[trigger] corners[i]) | (orientations[i] << 4)
                == corners[i] + 16 * orientations[i] by {
                lemma_pack(corners[i], orientations[i]);
            }
            lemma_shift_bound(orientations[0]);
            lemma_shift_bound(orientations[1]);
            lemma_shift_bound(orientations[2]);
            lemma_shift_bound(orientations[3]);
            lemma_shift_bound(orientations[4]);
            lemma_shift_bound(orientations[5]);
            lemma_shift_bound(orientations[6]);
            lemma_shift_bound(orientations[7]);
        }
        Self {
            s: [
                corners[0] | (orientations[0] << 4),
                corners[1] | (orientations[1] << 4),
                corners[2] | (orientations[2] << 4),
                corners[3] | (orientations[3] << 4),
                corners[4] | (orientations[4] << 4),
                corners[5] | (orientations[5] << 4),
                corners[6] | (orientations[6] << 4),
                corners[7] | (orientations[7] << 4),
            ],
        }
    }

    pub fn is_solved(&self) -> (r: bool)
        ensures
            r == (self.spec_state() == seq![0u8, 1u8, 2u8, 3u8, 4u8, 5u8, 6u8, 7u8]),
    {
        let solved = Self::solved();
        for i in 0..8
            invariant
                solved.s@ == seq![0u8, 1u8, 2u8, 3u8, 4u8, 5u8, 6u8, 7u8],
                forall|j: int| 0 <= j < i ==> self.s[j] == solved.s[j],
        {
            if self.s[i] != solved.s[i] {
                return false;
            }
        }
        proof {
            assert(self.s@ =~= solved.s@);
        }
        true
    }

    /// Create Corners from permutation and orientation indices
    /// - `prm`: permutation index (0 to PRM_SIZE-1)
    /// - `ori`: orientation index (0 to ORI_SIZE-1)
    #[verifier::rlimit(50)]
    pub fn from_index(prm: u16, ori: u16) -> (r: Self)
        requires
            prm < 40320,
            ori < 2187,
        ensures
            r == Corners::spec_from_index(prm as int, ori as int),
            r.spec_state() == corner_state_of(prm as int, ori as int),
            r.well_formed(),
            r.spec_cubies() == spec_nth_permutation(prm as nat, 8),
            r.spec_orientations() == corner_orientations_of(ori as int),
            r.spec_prm_index() == prm,
            r.spec_ori_index() == ori,
    {
        proof {
            lemma_factorial_table(8);
            lemma_nth_permutation(prm as nat, 8);
        }
        let v = nth_permutation(prm as i64, 8);
        let p: [u8; 8] = [v[0], v[1], v[2], v[3], v[4], v[5], v[6], v[7]];

        let o = decode_orientations(ori);
        let r = Self::new(p, o);
        proof {
            let want = corner_state_of(prm as int, ori as int);
            assert forall|i: int| 0 <= i < 8 implies r.spec_state()[i] == want[i] by {
                assert(p[i] == spec_nth_permutation(prm as nat, 8)[i]);
                assert(o[i] == corner_orientations_of(ori as int)[i]);
                assert(p[i] < 8 && o[i] < 3);
            }
            assert(r.spec_state() =~= want);
            lemma_corner_state_of(prm as int, ori as int);
            lemma_corners_equal(r, Corners::spec_from_index(prm as int, ori as int));
            assert(r.spec_cubies() =~= spec_nth_permutation(prm as nat, 8));
            assert(r.spec_orientations() =~= corner_orientations_of(ori as int));
        }
        r
    }

    /// Get the permutation index (0 to PRM_SIZE-1)
    pub fn prm_index(&self) -> (r: u16)
        requires
            self.well_formed(),
        ensures
            r == self.spec_prm_index(),
            r < 40320,
    {
        let c = self.cubies();
        proof {
            lemma_permutation_index_bound(c@);
            lemma_factorial_table(8);
        }
        permutation_index(c.as_slice()) as u16
    }

    /// Get the orientation index (0 to ORI_SIZE-1)
    pub fn ori_index(&self) -> (r: u16)
        requires
            self.well_formed(),
        ensures
            r == self.spec_ori_index(),
            r < 2187,
    {
        let o = self.orientations();
        proof {
            assert forall|i: int| 0 <= i < 8 implies (#[trigger] o[i]) < 3 by {
                assert(o[i] == self.spec_orientation(i));
                assert(self.spec_state()[i] < 48);
            }
        }
        o[0] as u16 + o[1] as u16 * 3 + o[2] as u16 * 9 + o[3] as u16 * 27 + o[4] as u16 * 81
            + o[5] as u16 * 243 + o[6] as u16 * 729
    }

    /// Create Corners from a combined index (0 to INDEX_SIZE-1)
    pub fn from_combined_index(index: u32) -> (r: Self)
        requires
            index < 88179840,
        ensures
            r == Corners::spec_from_index(index as int / 2187, index as int % 2187),
            r.well_formed(),
            r.spec_prm_index() * 2187 + r.spec_ori_index() == index,
    {
        Self::from_index((index / Self::ORI_SIZE as u32) as u16, (index % Self::ORI_SIZE as u32) as u16)
    }

    /// Get the combined index (0 to INDEX_SIZE-1)
    pub fn index(&self) -> (r: u32)
        requires
            self.well_formed(),
        ensures
            r == self.spec_prm_index() * 2187 + self.spec_ori_index(),
            r < 88179840,
    {
        self.prm_index() as u32 * Self::ORI_SIZE as u32 + self.ori_index() as u32
    }
}

/// The eight orientations that the orientation index `ori` stands for.
#[verifier::rlimit(50)]
fn decode_orientations(ori: u16) -> (o: [u8; 8])
    requires
        ori < 2187,
    ensures
        o@ == corner_orientations_of(ori as int),
        forall|i: int| 0 <= i < 8 ==> (#[trigger] o[i]) < 3,
        o[0] + o[1] * 3 + o[2] * 9 + o[3] * 27 + o[4] * 81 + o[5] * 243 + o[6] * 729 == ori,
{
    // Decode orientations from base-3 representation
    let mut rest = ori;
    let o0 = (rest % 3) as u8;
    rest /= 3;
    assert(rest == ori / 3);
    let o1 = (rest % 3) as u8;
    rest /= 3;
    assert(rest == ori / 9);
    let o2 = (rest % 3) as u8;
    rest /= 3;
    assert(rest == ori / 27);
    let o3 = (rest % 3) as u8;
    rest /= 3;
    assert(rest == ori / 81);
    let o4 = (rest % 3) as u8;
    rest /= 3;
    assert(rest == ori / 243);
    let o5 = (rest % 3) as u8;
    rest /= 3;
    assert(rest == ori / 729);
    let o6 = (rest % 3) as u8;
    let o7 = ((12 + o0 - o1 - o2 + o3 - o4 + o5 + o6) % 3) as u8;
    proof {
        lemma_orientations_decoded(ori as int, seq![o0, o1, o2, o3, o4, o5, o6, o7]);
    }
    [o0, o1, o2, o3, o4, o5, o6, o7]
}

/// Eight numbers that are the digits of `ori` and what they determine are the
/// orientations that `ori` stands for.
#[verifier::rlimit(50)]
proof fn lemma_orientations_decoded(ori: int, o: Seq<u8>)
    requires
        0 <= ori < 2187,
        o.len() == 8,
        o[0] == ori % 3,
        o[1] == (ori / 3) % 3,
        o[2] == (ori / 9) % 3,
        o[3] == (ori / 27) % 3,
        o[4] == (ori / 81) % 3,
        o[5] == (ori / 243) % 3,
        o[6] == (ori / 729) % 3,
        o[7] == (12 + o[0] - o[1] - o[2] + o[3] - o[4] + o[5] + o[6]) % 3,
    ensures
        o == corner_orientations_of(ori),
        forall|i: int| 0 <= i < 8 ==> (#[trigger] o[i]) < 3,
        o[0] + o[1] * 3 + o[2] * 9 + o[3] * 27 + o[4] * 81 + o[5] * 243 + o[6] * 729 == ori,
{
    lemma_orientation_digits(ori);
    assert(o =~= corner_orientations_of(ori));
}

proof fn lemma_shift_bound(orientation: u8)
    by (bit_vector)
    requires
        orientation < 3,
    ensures
        (orientation << 4) == 16 * orientation,
{
}

/// The orientations that an orientation index stands for, one by one.
pub proof fn lemma_orientations_one_by_one(ori: int)
    ensures
        corner_orientations_of(ori).len() == 8,
        corner_orientations_of(ori)[0] == (ori % 3) as u8,
        corner_orientations_of(ori)[1] == ((ori / 3) % 3) as u8,
        corner_orientations_of(ori)[2] == ((ori / 9) % 3) as u8,
        corner_orientations_of(ori)[3] == ((ori / 27) % 3) as u8,
        corner_orientations_of(ori)[4] == ((ori / 81) % 3) as u8,
        corner_orientations_of(ori)[5] == ((ori / 243) % 3) as u8,
        corner_orientations_of(ori)[6] == ((ori / 729) % 3) as u8,
        corner_orientations_of(ori)[7] == ((12 + ori % 3 - (ori / 3) % 3 - (ori / 9) % 3 + (ori / 27)
            % 3 - (ori / 81) % 3 + (ori / 243) % 3 + (ori / 729) % 3) % 3) as u8,
{
}

/// The orientations that an orientation index stands for are eight, each
/// below 3, and the first seven are its digits in base 3.
pub proof fn lemma_orientation_digits(ori: int)
    requires
        0 <= ori < 2187,
    ensures
        corner_orientations_of(ori).len() == 8,
        forall|i: int| 0 <= i < 8 ==> (#[trigger] corner_orientations_of(ori)[i]) < 3,
        ({
            let o = corner_orientations_of(ori);
            o[0] + o[1] * 3 + o[2] * 9 + o[3] * 27 + o[4] * 81 + o[5] * 243 + o[6] * 729 == ori
        }),
{
    let o = corner_orientations_of(ori);
    let q1 = ori / 3;
    let q2 = ori / 9;
    let q3 = ori / 27;
    let q4 = ori / 81;
    let q5 = ori / 243;
    let q6 = ori / 729;
    assert(q2 == q1 / 3);
    assert(q3 == q2 / 3);
    assert(q4 == q3 / 3);
    assert(q5 == q4 / 3);
    assert(q6 == q5 / 3);
    assert(q6 < 3);
    assert(o[0] == ori % 3);
    assert(o[1] == q1 % 3);
    assert(o[2] == q2 % 3);
    assert(o[3] == q3 % 3);
    assert(o[4] == q4 % 3);
    assert(o[5] == q5 % 3);
    assert(o[6] == q6 % 3);
    assert(o[7] < 3);
    assert(ori == o[0] + 3 * q1);
    assert(q1 == o[1] + 3 * q2);
    assert(q2 == o[2] + 3 * q3);
    assert(q3 == o[3] + 3 * q4);
    assert(q4 == o[4] + 3 * q5);
    assert(q5 == o[5] + 3 * q6);
    assert(q6 == o[6]);
}

/// The bytes that `corner_state_of` gives are those of eight different cubies
/// in the order of the permutation with index `prm`, with orientations whose
/// first seven are the digits of `ori`.
#[verifier::rlimit(50)]
pub proof fn lemma_corner_state_of(prm: int, ori: int)
    requires
        0 <= prm < 40320,
        0 <= ori < 2187,
    ensures
        corner_state_ok(corner_state_of(prm, ori)),
        Corners::spec_from_index(prm, ori).spec_state() == corner_state_of(prm, ori),
        forall|i: int|
            0 <= i < 8 ==> (#[trigger] corner_state_of(prm, ori)[i]) % 16 == spec_nth_permutation(
                prm as nat,
                8,
            )[i] && corner_state_of(prm, ori)[i] / 16 == corner_orientations_of(ori)[i],
        Corners::spec_from_index(prm, ori).spec_prm_index() == prm,
        Corners::spec_from_index(prm, ori).spec_ori_index() == ori,
{
    let want = corner_state_of(prm, ori);
    let p = spec_nth_permutation(prm as nat, 8);
    let o = corner_orientations_of(ori);
    let c = Corners::spec_from_index(prm, ori);
    lemma_factorial_table(8);
    lemma_nth_permutation(prm as nat, 8);
    lemma_orientation_digits(ori);
    assert forall|i: int| 0 <= i < 8 implies (#[trigger] want[i]) % 16 == p[i] && want[i] / 16
        == o[i] && want[i] < 48 by {
        assert(p[i] < 8);
        assert(o[i] < 3);
    }
    assert forall|i: int, j: int| 0 <= i < j < 8 implies want[i] % 16 != want[j] % 16 by {
        assert(p[i] != p[j]);
    }
    assert(c.s@ =~= want);
    assert(c.spec_cubies() =~= p);
    assert(c.spec_orientation(0) == o[0]);
    assert(c.spec_orientation(1) == o[1]);
    assert(c.spec_orientation(2) == o[2]);
    assert(c.spec_orientation(3) == o[3]);
    assert(c.spec_orientation(4) == o[4]);
    assert(c.spec_orientation(5) == o[5]);
    assert(c.spec_orientation(6) == o[6]);
}

/// Two values with the same bytes are the same value.
pub proof fn lemma_corners_equal(a: Corners, b: Corners)
    requires
        a.spec_state() == b.spec_state(),
    ensures
        a == b,
{
    assert(a.s@ =~= b.s@);
    assert(a.s == b.s);
}

/// The bytes after a turn are those that `corner_twisted_state` describes.
pub proof fn lemma_corners_twisted_state(c: Corners, t: Twist)
    ensures
        c.spec_twisted(t).spec_state() == corner_twisted_state(c.spec_state(), t),
{
    assert(c.spec_twisted(t).s@ =~= corner_twisted_state(c.s@, t));
}

proof fn lemma_state_twist_then_inverse(s: Seq<u8>, t: Twist)
    requires
        corner_state_ok(s),
    ensures
        corner_twisted_state(corner_twisted_state(s, t), spec_inversed(t)) == s,
{
    let u = spec_inversed(t);
    let m = corner_twisted_state(s, t);
    let e = corner_twisted_state(m, u);
    assert forall|i: int| 0 <= i < 8 implies e[i] == s[i] by {
        let k = corner_source(u, i);
        assert(corner_source(t, k) == i);
        assert(s[i] < 48);
    }
    assert(e =~= s);
}

/// A turn followed by the turn that undoes it leaves the corners as they were.
pub proof fn lemma_corners_twist_then_inverse(c: Corners, t: Twist)
    requires
        c.well_formed(),
    ensures
        c.spec_twisted(t).spec_twisted(spec_inversed(t)) == c,
{
    lemma_corners_twisted_state(c, t);
    lemma_corners_twisted_state(c.spec_twisted(t), spec_inversed(t));
    lemma_state_twist_then_inverse(c.spec_state(), t);
    lemma_corners_equal(c.spec_twisted(t).spec_twisted(spec_inversed(t)), c);
}

/// The half turn of the face that `t` turns.
pub open spec fn spec_half_turn(t: Twist) -> Twist {
    Twist::spec_from(t.spec_face() * 3 + 1)
}

proof fn lemma_state_half_turn_twice(s: Seq<u8>, t: Twist)
    requires
        corner_state_ok(s),
        t.spec_quarter_turns() == 2,
    ensures
        corner_twisted_state(corner_twisted_state(s, t), t) == s,
{
    let m = corner_twisted_state(s, t);
    let e = corner_twisted_state(m, t);
    assert forall|i: int| 0 <= i < 8 implies e[i] == s[i] by {
        let k = corner_source(t, i);
        assert(corner_source(t, k) == i);
    }
    assert(e =~= s);
}

proof fn lemma_state_quarter_turn_twice(s: Seq<u8>, t: Twist)
    requires
        corner_state_ok(s),
        t.spec_quarter_turns() != 2,
    ensures
        corner_twisted_state(corner_twisted_state(s, t), t) == corner_twisted_state(
            s,
            spec_half_turn(t),
        ),
{
    let h = spec_half_turn(t);
    let m = corner_twisted_state(s, t);
    let e = corner_twisted_state(m, t);
    let w = corner_twisted_state(s, h);
    assert forall|i: int| 0 <= i < 8 implies e[i] == w[i] by {
        let k = corner_source(t, i);
        assert(corner_source(t, k) == corner_source(h, i));
        assert(s[corner_source(h, i)] < 48);
    }
    assert(e =~= w);
}

proof fn lemma_state_twist_four_times(s: Seq<u8>, t: Twist)
    requires
        corner_state_ok(s),
    ensures
        corner_twisted_state(
            corner_twisted_state(corner_twisted_state(corner_twisted_state(s, t), t), t),
            t,
        ) == s,
{
    let s1 = corner_twisted_state(s, t);
    let s2 = corner_twisted_state(s1, t);
    lemma_twisted_state_ok(s, t);
    lemma_twisted_state_ok(s1, t);
    if t.spec_quarter_turns() == 2 {
        lemma_state_half_turn_twice(s, t);
        lemma_state_half_turn_twice(s2, t);
    } else {
        let h = spec_half_turn(t);
        lemma_state_quarter_turn_twice(s, t);
        lemma_state_quarter_turn_twice(s2, t);
        lemma_state_half_turn_twice(s, h);
    }
}

/// Four times the same turn leaves the corners as they were.
pub proof fn lemma_corners_twist_four_times(c: Corners, t: Twist)
    requires
        c.well_formed(),
    ensures
        c.spec_twisted(t).spec_twisted(t).spec_twisted(t).spec_twisted(t) == c,
{
    let c1 = c.spec_twisted(t);
    let c2 = c1.spec_twisted(t);
    let c3 = c2.spec_twisted(t);
    let c4 = c3.spec_twisted(t);
    lemma_corners_twisted_state(c, t);
    lemma_corners_twisted_state(c1, t);
    lemma_corners_twisted_state(c2, t);
    lemma_corners_twisted_state(c3, t);
    lemma_state_twist_four_times(c.spec_state(), t);
    lemma_corners_equal(c4, c);
}

/// A turn takes the cubies of its face from places of its face and leaves
/// every other cubie where it is.
proof fn lemma_source_stays_on_face(t: Twist, i: int)
    requires
        0 <= i < 8,
    ensures
        0 <= corner_source(t, i) < 8,
        corner_on_face(t.spec_face(), i) == corner_on_face(t.spec_face(), corner_source(t, i)),
        !corner_on_face(t.spec_face(), i) ==> corner_source(t, i) == i,
{
}

proof fn lemma_state_opposite_faces_commute(s: Seq<u8>, a: Twist, b: Twist)
    requires
        corner_state_ok(s),
        a.spec_face() / 2 == b.spec_face() / 2,
        a.spec_face() != b.spec_face(),
    ensures
        corner_twisted_state(corner_twisted_state(s, a), b) == corner_twisted_state(
            corner_twisted_state(s, b),
            a,
        ),
{
    let x = corner_twisted_state(corner_twisted_state(s, a), b);
    let y = corner_twisted_state(corner_twisted_state(s, b), a);
    assert forall|i: int| 0 <= i < 8 implies x[i] == y[i] by {
        let k = corner_source(b, i);
        let l = corner_source(a, i);
        lemma_source_stays_on_face(a, i);
        lemma_source_stays_on_face(b, i);
        lemma_source_stays_on_face(a, k);
        lemma_source_stays_on_face(b, l);
        assert(!(corner_on_face(a.spec_face(), i) && corner_on_face(b.spec_face(), i)));
        assert(!(corner_on_face(a.spec_face(), l) && corner_on_face(b.spec_face(), l)));
        assert(!(corner_on_face(a.spec_face(), k) && corner_on_face(b.spec_face(), k)));
    }
    assert(x =~= y);
}

/// Turns of two opposite faces can be made in either order.
pub proof fn lemma_corners_opposite_faces_commute(c: Corners, a: Twist, b: Twist)
    requires
        c.well_formed(),
        a.spec_face() / 2 == b.spec_face() / 2,
        a.spec_face() != b.spec_face(),
    ensures
        c.spec_twisted(a).spec_twisted(b) == c.spec_twisted(b).spec_twisted(a),
{
    lemma_corners_twisted_state(c, a);
    lemma_corners_twisted_state(c, b);
    lemma_corners_twisted_state(c.spec_twisted(a), b);
    lemma_corners_twisted_state(c.spec_twisted(b), a);
    lemma_state_opposite_faces_commute(c.spec_state(), a, b);
    lemma_corners_equal(c.spec_twisted(a).spec_twisted(b), c.spec_twisted(b).spec_twisted(a));
}

/// The corners with every cubie at its own place and none turned are well
/// formed, and their two indices are 0.
pub proof fn lemma_solved_corners(c: Corners)
    requires
        c.spec_state() == seq![0u8, 1u8, 2u8, 3u8, 4u8, 5u8, 6u8, 7u8],
    ensures
        c.well_formed(),
        c.spec_prm_index() == 0,
        c.spec_ori_index() == 0,
{
    lemma_rank_of_ascending(c.spec_cubies());
}

/// The two indices of well-formed corners are within their ranges, and so are
/// those of the corners after a turn.
pub proof fn lemma_corner_index_bounds(c: Corners, t: Twist)
    requires
        c.well_formed(),
    ensures
        c.spec_prm_index() < 40320,
        0 <= c.spec_ori_index() < 2187,
        c.spec_twisted(t).well_formed(),
        c.spec_twisted(t).spec_prm_index() < 40320,
        0 <= c.spec_twisted(t).spec_ori_index() < 2187,
{
    lemma_factorial_table(8);
    lemma_permutation_index_bound(c.spec_cubies());
    lemma_corners_twisted_state(c, t);
    lemma_twisted_state_ok(c.spec_state(), t);
    let n = c.spec_twisted(t);
    lemma_permutation_index_bound(n.spec_cubies());
    assert forall|i: int| 0 <= i < 8 implies c.spec_orientation(i) < 3 && n.spec_orientation(i)
        < 3 by {
        assert(c.spec_state()[i] < 48);
        assert(n.spec_state()[i] < 48);
    }
}

} // verus!
