//! The eighteen face turns, sets of them, and a seeded source of random turns.

use crate::config::{is_blank, skip_blanks};
use crate::bits::{
    bit_is_set, count_set_below, lemma_clear_lowest_bit, lemma_count_clear_lowest_bit,
    lemma_lowest_bit, lemma_zero_has_no_bits,
};
use vstd::prelude::*;
use vstd::string::{StringExecFns, StringSliceAdditionalSpecFns};

verus! {

/// A turn of one face: a quarter turn clockwise (1), a half turn (2) or a
/// quarter turn counter-clockwise (3) of the left, right, up, down, front or
/// back face.
#[derive(Clone, Copy, PartialEq, Eq, Debug, Structural)]
pub enum Twist {
    L1,
    L2,
    L3,
    R1,
    R2,
    R3,
    U1,
    U2,
    U3,
    D1,
    D2,
    D3,
    F1,
    F2,
    F3,
    B1,
    B2,
    B3,
}

/// What can be turned, face by face.
pub trait Twistable: Sized {
    /// The states on which a turn is defined.
    spec fn well_formed(&self) -> bool;

    /// The state after the turn `t`.
    spec fn spec_twisted(&self, t: Twist) -> Self;

    fn twisted(&self, t: Twist) -> (r: Self)
        requires
            self.well_formed(),
        ensures
            r == self.spec_twisted(t),
            r.well_formed(),
    ;
}

impl Twist {
    /// The position of the turn in the order L1, L2, L3, R1, .., B3.
    pub open spec fn spec_index(self) -> int {
        match self {
            Twist::L1 => 0,
            Twist::L2 => 1,
            Twist::L3 => 2,
            Twist::R1 => 3,
            Twist::R2 => 4,
            Twist::R3 => 5,
            Twist::U1 => 6,
            Twist::U2 => 7,
            Twist::U3 => 8,
            Twist::D1 => 9,
            Twist::D2 => 10,
            Twist::D3 => 11,
            Twist::F1 => 12,
            Twist::F2 => 13,
            Twist::F3 => 14,
            Twist::B1 => 15,
            Twist::B2 => 16,
            Twist::B3 => 17,
        }
    }

    /// The turn at position `value` of the order L1, L2, L3, R1, .., B3.
    pub open spec fn spec_from(value: int) -> Twist {
        if value == 0 {
            Twist::L1
        } else if value == 1 {
            Twist::L2
        } else if value == 2 {
            Twist::L3
        } else if value == 3 {
            Twist::R1
        } else if value == 4 {
            Twist::R2
        } else if value == 5 {
            Twist::R3
        } else if value == 6 {
            Twist::U1
        } else if value == 7 {
            Twist::U2
        } else if value == 8 {
            Twist::U3
        } else if value == 9 {
            Twist::D1
        } else if value == 10 {
            Twist::D2
        } else if value == 11 {
            Twist::D3
        } else if value == 12 {
            Twist::F1
        } else if value == 13 {
            Twist::F2
        } else if value == 14 {
            Twist::F3
        } else if value == 15 {
            Twist::B1
        } else if value == 16 {
            Twist::B2
        } else {
            Twist::B3
        }
    }

    /// The face that is turned: 0 for L, then R, U, D, F, B.
    pub open spec fn spec_face(self) -> int {
        self.spec_index() / 3
    }

    /// The number of quarter turns clockwise that the turn amounts to.
    pub open spec fn spec_quarter_turns(self) -> int {
        self.spec_index() % 3 + 1
    }

    /// The two bytes of the turn's name: the letter of its face and the digit
    /// of its quarter turns.
    pub open spec fn spec_name(self) -> Seq<u8> {
        seq![
            if self.spec_face() == 0 {
                76u8
            } else if self.spec_face() == 1 {
                82u8
            } else if self.spec_face() == 2 {
                85u8
            } else if self.spec_face() == 3 {
                68u8
            } else if self.spec_face() == 4 {
                70u8
            } else {
                66u8
            },
            (48 + self.spec_quarter_turns()) as u8,
        ]
    }

    /// The position of the turn in the order L1, L2, L3, R1, .., B3.
    pub fn index(self) -> (r: u8)
        ensures
            r == self.spec_index(),
            r < 18,
    {
        match self {
            Twist::L1 => 0,
            Twist::L2 => 1,
            Twist::L3 => 2,
            Twist::R1 => 3,
            Twist::R2 => 4,
            Twist::R3 => 5,
            Twist::U1 => 6,
            Twist::U2 => 7,
            Twist::U3 => 8,
            Twist::D1 => 9,
            Twist::D2 => 10,
            Twist::D3 => 11,
            Twist::F1 => 12,
            Twist::F2 => 13,
            Twist::F3 => 14,
            Twist::B1 => 15,
            Twist::B2 => 16,
            Twist::B3 => 17,
        }
    }

    /// The turn at position `value` of the order L1, L2, L3, R1, .., B3.
    pub fn from(value: u8) -> (t: Twist)
        requires
            value < 18,
        ensures
            t == Twist::spec_from(value as int),
            t.spec_index() == value,
    {
        match value {
            0 => Twist::L1,
            1 => Twist::L2,
            2 => Twist::L3,
            3 => Twist::R1,
            4 => Twist::R2,
            5 => Twist::R3,
            6 => Twist::U1,
            7 => Twist::U2,
            8 => Twist::U3,
            9 => Twist::D1,
            10 => Twist::D2,
            11 => Twist::D3,
            12 => Twist::F1,
            13 => Twist::F2,
            14 => Twist::F3,
            15 => Twist::B1,
            16 => Twist::B2,
            _ => Twist::B3,
        }
    }

    /// The turn that `s` names, where it names one.
    pub fn parse(s: &str) -> (r: Option<Twist>)
        ensures
            match r {
                Some(t) => s.spec_bytes() == t.spec_name(),
                None => forall|t: Twist| s.spec_bytes() != t.spec_name(),
            },
    {
        let bytes = s.as_bytes();
        if bytes.len() != 2 {
            proof {
                assert forall|t: Twist| s.spec_bytes() != t.spec_name() by {
                    assert(t.spec_name().len() == 2);
                }
            }
            return None;
        }
        let letter = bytes[0];
        let digit = bytes[1];
        let face: u8 = if letter == 76 {
            0
        } else if letter == 82 {
            1
        } else if letter == 85 {
            2
        } else if letter == 68 {
            3
        } else if letter == 70 {
            4
        } else if letter == 66 {
            5
        } else {
            6
        };
        if face == 6 || digit < 49 || digit > 51 {
            proof {
                assert forall|t: Twist| s.spec_bytes() != t.spec_name() by {
                    assert(t.spec_name()[0] != letter || t.spec_name()[1] != digit);
                }
            }
            return None;
        }
        let t = Twist::from(face * 3 + (digit - 49));
        proof {
            assert(s.spec_bytes() =~= t.spec_name());
        }
        Some(t)
    }
}

/// What `spec_from` gives has the position asked for, and a turn is the one at
/// its own position.
pub proof fn lemma_twist_index(t: Twist)
    ensures
        0 <= t.spec_index() < 18,
        Twist::spec_from(t.spec_index()) == t,
        forall|v: int| 0 <= v < 18 ==> (#[trigger] Twist::spec_from(v)).spec_index() == v,
{
}

impl std::str::FromStr for Twist {
    type Err = String;

    /// The turn that `s` names, exactly where it names one; else the message
    /// for `s`.
    fn from_str(s: &str) -> (r: Result<Self, String>)
        ensures
            r is Ok <==> names_a_twist(s@),
            r matches Ok(t) ==> names_twist(s@, t),
            r matches Err(message) ==> message@ == spec_unknown_twist(s@),
    {
        match Twist::parse(s) {
            Some(t) => {
                proof {
                    assert(names_twist(s@, t));
                }
                Ok(t)
            },
            None => {
                proof {
                    assert forall|t: Twist| !names_twist(s@, t) by {}
                }
                Err(unknown_twist(s))
            },
        }
    }
}

/// The message for a word that names no turn.
pub open spec fn spec_unknown_twist(word: Seq<char>) -> Seq<char> {
    "Unknown twist: '"@ + word + "'"@
}

/// The message for a word that names no turn.
fn unknown_twist(word: &str) -> (message: String)
    ensures
        message@ == spec_unknown_twist(word@),
{
    let mut message = String::from_str("Unknown twist: '");
    message.append(word);
    message.append("'");
    message
}

/// The turn that undoes `t`: the same face, turned the other way.
pub open spec fn spec_inversed(t: Twist) -> Twist {
    Twist::spec_from(t.spec_face() * 3 + (3 - t.spec_quarter_turns()))
}

/// The turn that undoes `t`.
pub fn inversed(t: Twist) -> (r: Twist)
    ensures
        r == spec_inversed(t),
        r.spec_face() == t.spec_face(),
        r.spec_quarter_turns() + t.spec_quarter_turns() == 4,
{
    match t {
        Twist::L1 => Twist::L3,
        Twist::L2 => Twist::L2,
        Twist::L3 => Twist::L1,
        Twist::R1 => Twist::R3,
        Twist::R2 => Twist::R2,
        Twist::R3 => Twist::R1,
        Twist::U1 => Twist::U3,
        Twist::U2 => Twist::U2,
        Twist::U3 => Twist::U1,
        Twist::D1 => Twist::D3,
        Twist::D2 => Twist::D2,
        Twist::D3 => Twist::D1,
        Twist::F1 => Twist::F3,
        Twist::F2 => Twist::F2,
        Twist::F3 => Twist::F1,
        Twist::B1 => Twist::B3,
        Twist::B2 => Twist::B2,
        Twist::B3 => Twist::B1,
    }
}

/// The first place of `text` at or after `from` that holds white space, or
/// the end of `text`.
pub open spec fn first_blank(text: Seq<char>, from: int) -> int
    decreases text.len() - from,
{
    if from >= text.len() {
        text.len() as int
    } else if is_blank(text[from]) {
        from
    } else {
        first_blank(text, from + 1)
    }
}

/// The words of `text` from the place `from` on: the longest runs of
/// characters that are no white space, in order.
pub open spec fn spec_words_from(text: Seq<char>, from: int) -> Seq<Seq<char>>
    decreases text.len() - from,
{
    let start = skip_blanks(text, from, text.len() as int);
    let end = first_blank(text, start);
    if 0 <= from <= start < end <= text.len() {
        seq![text.subrange(start, end)] + spec_words_from(text, end)
    } else {
        Seq::empty()
    }
}

/// The words of a text: the longest runs of characters that are no white
/// space, in order.
pub open spec fn spec_words(text: Seq<char>) -> Seq<Seq<char>> {
    spec_words_from(text, 0)
}

/// `str::split_whitespace` splits a text at the characters with the Unicode
/// property White_Space into its words, which are never empty, in order; this
/// hands them out as owned strings.
#[verifier::external_body]
fn split_words(input: &str) -> (words: Vec<String>)
    ensures
        words@.len() == spec_words(input@).len(),
        forall|i: int| 0 <= i < words@.len() ==> (#[trigger] words@[i])@ == spec_words(input@)[i],
{
    input.split_whitespace().map(|word| word.to_string()).collect()
}

/// Whether `word` is the name of the turn `t`.
pub open spec fn names_twist(word: Seq<char>, t: Twist) -> bool {
    vstd::utf8::encode_utf8(word) == t.spec_name()
}

/// Whether `word` is the name of a turn.
pub open spec fn names_a_twist(word: Seq<char>) -> bool {
    exists|t: Twist| names_twist(word, t)
}

/// The turns that `words` name, in order; the message for the first word that
/// names none, where there is one.
pub fn parse_words(words: &Vec<String>) -> (r: Result<Vec<Twist>, String>)
    ensures
        r is Ok <==> forall|i: int| 0 <= i < words@.len() ==> names_a_twist(#[trigger] words@[i]@),
        r is Ok ==> r->Ok_0@.len() == words@.len() && forall|i: int|
            0 <= i < words@.len() ==> names_twist(words@[i]@, #[trigger] r->Ok_0@[i]),
        r is Err ==> exists|k: int|
            0 <= k < words@.len() && !names_a_twist(#[trigger] words@[k]@) && r->Err_0@
                == spec_unknown_twist(words@[k]@) && forall|i: int|
                0 <= i < k ==> names_a_twist(#[trigger] words@[i]@),
{
    let mut twists: Vec<Twist> = Vec::with_capacity(words.len());
    for k in 0..words.len()
        invariant
            twists@.len() == k,
            forall|i: int| 0 <= i < k ==> names_twist(words@[i]@, #[trigger] twists@[i]),
            forall|i: int| 0 <= i < k ==> names_a_twist(#[trigger] words@[i]@),
    {
        match Twist::parse(words[k].as_str()) {
            Some(t) => {
                proof {
                    assert(names_twist(words@[k as int]@, t));
                }
                twists.push(t);
            },
            None => {
                proof {
                    assert(!names_a_twist(words@[k as int]@)) by {
                        assert forall|t: Twist| !names_twist(words@[k as int]@, t) by {}
                    }
                }
                return Err(unknown_twist(words[k].as_str()));
            },
        }
    }
    proof {
        assert forall|i: int| 0 <= i < words@.len() implies names_a_twist(
            #[trigger] words@[i]@,
        ) by {
            assert(names_twist(words@[i]@, twists@[i]));
        }
    }
    Ok(twists)
}

/// Parse a string of turn names separated by whitespace.
pub fn parse_twists(input: &str) -> (r: Result<Vec<Twist>, String>)
    ensures
        r is Ok <==> forall|i: int|
            0 <= i < spec_words(input@).len() ==> names_a_twist(#[trigger] spec_words(input@)[i]),
        r is Ok ==> r->Ok_0@.len() == spec_words(input@).len() && forall|i: int|
            0 <= i < r->Ok_0@.len() ==> names_twist(spec_words(input@)[i], #[trigger] r->Ok_0@[i]),
        r is Err ==> exists|k: int|
            0 <= k < spec_words(input@).len() && !names_a_twist(#[trigger] spec_words(input@)[k])
                && r->Err_0@ == spec_unknown_twist(spec_words(input@)[k]) && forall|i: int|
                0 <= i < k ==> names_a_twist(#[trigger] spec_words(input@)[i]),
{
    let words = split_words(input);
    let r = parse_words(&words);
    proof {
        let given = spec_words(input@);
        if r is Ok {
            assert forall|i: int| 0 <= i < given.len() implies names_a_twist(
                #[trigger] given[i],
            ) by {
                assert(names_a_twist(words@[i]@));
            }
            assert forall|i: int| 0 <= i < r->Ok_0@.len() implies names_twist(
                given[i],
                #[trigger] r->Ok_0@[i],
            ) by {
                assert(names_twist(words@[i]@, r->Ok_0@[i]));
            }
        } else {
            let k = choose|k: int|
                0 <= k < words@.len() && !names_a_twist(#[trigger] words@[k]@) && r->Err_0@
                    == spec_unknown_twist(words@[k]@) && forall|i: int|
                    0 <= i < k ==> names_a_twist(#[trigger] words@[i]@);
            assert(!names_a_twist(given[k]));
            assert forall|i: int| 0 <= i < k implies names_a_twist(#[trigger] given[i]) by {
                assert(names_a_twist(words@[i]@));
            }
        }
    }
    r
}

/// A set of turns, kept as a bitmap: bit i stands for the turn at position i.
#[derive(Clone, Copy, PartialEq, Eq, PartialOrd, Ord, Debug)]
pub struct Twists(u32);

proof fn lemma_word_union(a: u32, b: u32, j: u64)
    by (bit_vector)
    requires
        j < 64,
    ensures
        ((((a | b) as u64) >> j) & 1 == 1) <==> ((((a as u64) >> j) & 1 == 1) || (((b as u64) >> j)
            & 1 == 1)),
{
}

proof fn lemma_word_intersection(a: u32, b: u32, j: u64)
    by (bit_vector)
    requires
        j < 64,
    ensures
        ((((a & b) as u64) >> j) & 1 == 1) <==> ((((a as u64) >> j) & 1 == 1) && (((b as u64) >> j)
            & 1 == 1)),
{
}

proof fn lemma_word_difference(a: u32, b: u32, j: u64)
    by (bit_vector)
    requires
        j < 64,
    ensures
        ((((a & !b) as u64) >> j) & 1 == 1) <==> ((((a as u64) >> j) & 1 == 1) && !((((b as u64)
            >> j) & 1 == 1))),
{
}

proof fn lemma_word_single(e: u32, j: u64)
    by (bit_vector)
    requires
        e < 32,
        j < 64,
    ensures
        ((((1u32 << e) as u64) >> j) & 1 == 1) <==> j == e,
{
}

proof fn lemma_word_constants(j: u64)
    by (bit_vector)
    requires
        j < 64,
    ensures
        ((0x3FFFFu32 as u64 >> j) & 1 == 1) <==> j < 18,
        ((0x12FD2u32 as u64 >> j) & 1 == 1) <==> (j == 1 || j == 4 || (6 <= j && j < 12) || j == 13
            || j == 16),
        ((0x7u32 as u64 >> j) & 1 == 1) <==> j < 3,
        ((0x38u32 as u64 >> j) & 1 == 1) <==> (3 <= j && j < 6),
        ((0x1C0u32 as u64 >> j) & 1 == 1) <==> (6 <= j && j < 9),
        ((0xE00u32 as u64 >> j) & 1 == 1) <==> (9 <= j && j < 12),
        ((0x7000u32 as u64 >> j) & 1 == 1) <==> (12 <= j && j < 15),
        ((0x38000u32 as u64 >> j) & 1 == 1) <==> (15 <= j && j < 18),
{
}

proof fn lemma_word_range(m: u32, j: u64)
    by (bit_vector)
    requires
        m < 0x40000,
        18 <= j < 64,
    ensures
        ((m as u64) >> j) & 1 == 0,
{
}

proof fn lemma_word_bound(a: u32, b: u32)
    by (bit_vector)
    requires
        a < 0x40000,
    ensures
        a & b < 0x40000,
        a & !b < 0x40000,
        b < 0x40000 ==> a | b < 0x40000,
{
}

impl View for Twists {
    type V = Set<Twist>;

    /// The turns in the set.
    open spec fn view(&self) -> Set<Twist> {
        Set::new(|t: Twist| self.spec_contains(t))
    }
}

impl Twists {
    /// The bitmap.
    pub closed spec fn spec_bits(&self) -> u32 {
        self.0
    }

    /// Whether `t` is in the set.
    pub open spec fn spec_contains(&self, t: Twist) -> bool {
        bit_is_set(self.spec_bits() as u64, t.spec_index())
    }

    /// Whether the bitmap has no bit beyond those of the eighteen turns.
    pub open spec fn well_formed(&self) -> bool {
        self.spec_bits() < 0x40000
    }

    /// The number of set bits of the bitmap; where the set is well formed,
    /// the number of turns in it.
    pub open spec fn spec_count(&self) -> nat {
        count_set_below(self.spec_bits() as u64, 64)
    }

    /// The set with the bitmap `bits`.
    pub closed spec fn spec_from_bits(bits: u32) -> Twists {
        Twists(bits)
    }

    /// A set is the set with its bitmap.
    pub proof fn lemma_bits_determine(self)
        ensures
            Twists::spec_from_bits(self.spec_bits()) == self,
    {
    }

    pub fn from_bits(twists: u32) -> (r: Self)
        ensures
            r == Twists::spec_from_bits(twists),
            r.spec_bits() == twists,
    {
        Self(twists)
    }

    pub fn bits(&self) -> (r: u32)
        ensures
            r == self.spec_bits(),
    {
        self.0
    }

    /// The set without turns.
    pub fn empty() -> (r: Self)
        ensures
            r.spec_bits() == 0,
            r.well_formed(),
            forall|t: Twist| !r.spec_contains(t),
            r.spec_count() == 0,
    {
        proof {
            lemma_zero_has_no_bits();
        }
        Self(0)
    }

    /// The set of all eighteen turns.
    pub open spec fn spec_all() -> Twists {
        Twists::spec_from_bits(0x3FFFF)
    }

    /// The set H0.
    pub open spec fn spec_h0() -> Twists {
        Twists::spec_from_bits(0x12FD2)
    }

    /// The set of all eighteen turns.
    pub fn all() -> (r: Self)
        ensures
            r == Twists::spec_all(),
            r.spec_bits() == 0x3FFFF,
            r.well_formed(),
            forall|t: Twist| r.spec_contains(t),
    {
        proof {
            assert forall|t: Twist| bit_is_set(0x3FFFFu32 as u64, t.spec_index()) by {
                lemma_word_constants(t.spec_index() as u64);
            }
        }
        Self(0b111_111_111_111_111_111)
    }

    /// H0 = { L2, R2, U, D, F2, B2 }: the turns that generate the subgroup
    /// in which the second phase works.
    pub fn h0() -> (r: Self)
        ensures
            r == Twists::spec_h0(),
            r.spec_bits() == 0x12FD2,
            r.well_formed(),
            forall|t: Twist|
                r.spec_contains(t) <==> (t.spec_quarter_turns() == 2 || t.spec_face() == 2
                    || t.spec_face() == 3),
    {
        proof {
            assert forall|t: Twist|
                bit_is_set(0x12FD2u32 as u64, t.spec_index()) <==> (t.spec_quarter_turns() == 2
                    || t.spec_face() == 2 || t.spec_face() == 3) by {
                lemma_word_constants(t.spec_index() as u64);
            }
        }
        Self(0b010_010_111_111_010_010)
    }

    /// The three turns of the face that `t` turns.
    pub fn face_of(t: Twist) -> (r: Twists)
        ensures
            r.well_formed(),
            forall|u: Twist| r.spec_contains(u) <==> u.spec_face() == t.spec_face(),
    {
        let r = match t {
            Twist::L1 | Twist::L2 | Twist::L3 => Self(0b000_000_000_000_000_111),
            Twist::R1 | Twist::R2 | Twist::R3 => Self(0b000_000_000_000_111_000),
            Twist::U1 | Twist::U2 | Twist::U3 => Self(0b000_000_000_111_000_000),
            Twist::D1 | Twist::D2 | Twist::D3 => Self(0b000_000_111_000_000_000),
            Twist::F1 | Twist::F2 | Twist::F3 => Self(0b000_111_000_000_000_000),
            Twist::B1 | Twist::B2 | Twist::B3 => Self(0b111_000_000_000_000_000),
        };
        proof {
            assert forall|u: Twist| r.spec_contains(u) <==> u.spec_face() == t.spec_face() by {
                lemma_word_constants(u.spec_index() as u64);
            }
        }
        r
    }

    /// Adds `t` to the set.
    pub fn set(&mut self, t: Twist)
        ensures
            final(self).spec_bits() == old(self).spec_bits() | (1u32 << (t.spec_index() as u32)),
            forall|u: Twist| final(self).spec_contains(u) <==> (u == t || old(self).spec_contains(u)),
            old(self).well_formed() ==> final(self).well_formed(),
    {
        let bit: u32 = 1u32 << (t.index() as u32);
        proof {
            if self.0 < 0x40000 {
                lemma_single_bound(t.spec_index() as u32);
                lemma_word_bound(self.0, bit);
            }
        }
        self.0 |= bit;
        proof {
            assert forall|u: Twist| #[trigger]
                self.spec_contains(u) <==> (u == t || old(self).spec_contains(u)) by {
                lemma_word_union(old(self).0, bit, u.spec_index() as u64);
                lemma_word_single(t.spec_index() as u32, u.spec_index() as u64);
            }
        }
    }

    /// Takes `t` out of the set.
    pub fn unset(&mut self, t: Twist)
        ensures
            final(self).spec_bits() == old(self).spec_bits() & !(1u32 << (t.spec_index() as u32)),
            forall|u: Twist| final(self).spec_contains(u) <==> (u != t && old(self).spec_contains(u)),
            old(self).well_formed() ==> final(self).well_formed(),
    {
        let bit: u32 = 1u32 << (t.index() as u32);
        proof {
            if self.0 < 0x40000 {
                lemma_word_bound(self.0, bit);
            }
        }
        self.0 &= !bit;
        proof {
            assert forall|u: Twist| #[trigger]
                self.spec_contains(u) <==> (u != t && old(self).spec_contains(u)) by {
                lemma_word_difference(old(self).0, bit, u.spec_index() as u64);
                lemma_word_single(t.spec_index() as u32, u.spec_index() as u64);
            }
        }
    }

    /// Adds the turns of `t`: the union.
    pub fn set_twists(&mut self, t: Twists)
        ensures
            final(self).spec_bits() == old(self).spec_bits() | t.spec_bits(),
            forall|u: Twist|
                final(self).spec_contains(u) <==> (old(self).spec_contains(u) || t.spec_contains(u)),
            old(self).well_formed() && t.well_formed() ==> final(self).well_formed(),
    {
        proof {
            if self.0 < 0x40000 {
                lemma_word_bound(self.0, t.0);
            }
        }
        self.0 |= t.0;
        proof {
            assert forall|u: Twist| #[trigger]
                self.spec_contains(u) <==> (old(self).spec_contains(u) || t.spec_contains(u)) by {
                lemma_word_union(old(self).0, t.0, u.spec_index() as u64);
            }
        }
    }

    /// Takes out the turns of `t`: the difference.
    pub fn unset_twists(&mut self, t: Twists)
        ensures
            final(self).spec_bits() == old(self).spec_bits() & !t.spec_bits(),
            forall|u: Twist|
                final(self).spec_contains(u) <==> (old(self).spec_contains(u) && !t.spec_contains(
                    u,
                )),
            old(self).well_formed() ==> final(self).well_formed(),
    {
        proof {
            if self.0 < 0x40000 {
                lemma_word_bound(self.0, t.0);
            }
        }
        self.0 &= !t.0;
        proof {
            assert forall|u: Twist| #[trigger]
                self.spec_contains(u) <==> (old(self).spec_contains(u) && !t.spec_contains(u)) by {
                lemma_word_difference(old(self).0, t.0, u.spec_index() as u64);
            }
        }
    }

    /// Keeps only the turns that are in `t` too: the intersection.
    pub fn keep_only(&mut self, t: Twists)
        ensures
            final(self).spec_bits() == old(self).spec_bits() & t.spec_bits(),
            forall|u: Twist|
                final(self).spec_contains(u) <==> (old(self).spec_contains(u) && t.spec_contains(u)),
            old(self).well_formed() ==> final(self).well_formed(),
    {
        proof {
            if self.0 < 0x40000 {
                lemma_word_bound(self.0, t.0);
            }
        }
        self.0 &= t.0;
        proof {
            assert forall|u: Twist| #[trigger]
                self.spec_contains(u) <==> (old(self).spec_contains(u) && t.spec_contains(u)) by {
                lemma_word_intersection(old(self).0, t.0, u.spec_index() as u64);
            }
        }
    }

    pub fn contains(&self, t: Twist) -> (r: bool)
        ensures
            r == self.spec_contains(t),
    {
        let bit: u32 = 1u32 << (t.index() as u32);
        proof {
            lemma_word_test(self.0, t.spec_index() as u32);
        }
        self.0 & bit != 0
    }

    /// The number of turns in the set.
    pub fn count(&self) -> (r: usize)
        ensures
            r == self.spec_count(),
            r <= 64,
    {
        proof {
            lemma_count_bound(self.0 as u64, 64);
        }
        (self.0 as u64).count_ones() as usize
    }

    /// The turns of the set in ascending order, found by scanning the bitmap
    /// for its lowest set bit and clearing it, until none is left.
    pub fn iter(&self) -> (r: Vec<Twist>)
        requires
            self.well_formed(),
        ensures
            r@.len() == self.spec_count(),
            forall|i: int| 0 <= i < r@.len() ==> self.spec_contains(#[trigger] r@[i]),
            forall|i: int, j: int|
                0 <= i < j < r@.len() ==> r@[i].spec_index() < r@[j].spec_index(),
            forall|t: Twist| self.spec_contains(t) ==> r@.contains(t),
    {
        let given: u64 = self.0 as u64;
        let mut bits: u64 = given;
        let mut twists: Vec<Twist> = Vec::with_capacity(18);
        let ghost mut bound: int = 0;
        while bits != 0
            invariant
                given == self.spec_bits() as u64,
                self.well_formed(),
                0 <= bound <= 64,
                forall|j: int|
                    0 <= j < 64 ==> (#[trigger] bit_is_set(bits, j) <==> (bit_is_set(given, j) && j
                        >= bound)),
                twists@.len() + count_set_below(bits, 64) == count_set_below(given, 64),
                forall|i: int|
                    0 <= i < twists@.len() ==> self.spec_contains(#[trigger] twists@[i])
                        && twists@[i].spec_index() < bound,
                forall|i: int, j: int|
                    0 <= i < j < twists@.len() ==> twists@[i].spec_index()
                        < twists@[j].spec_index(),
                forall|t: Twist|
                    self.spec_contains(t) && t.spec_index() < bound ==> twists@.contains(t),
            decreases count_set_below(bits, 64),
        {
            proof {
                lemma_lowest_bit(bits);
                lemma_clear_lowest_bit(bits, bits & ((bits - 1) as u64));
                lemma_count_clear_lowest_bit(bits, bits & ((bits - 1) as u64), 64);
                let p = bits.trailing_zeros() as int;
                assert(bit_is_set(given, p));
                if p >= 18 {
                    lemma_word_range(self.0, p as u64);
                }
            }
            let ghost scanned = bits;
            let pos = bits.trailing_zeros() as u8;
            bits = bits & (bits - 1);  // Clear the lowest set bit
            let t = Twist::from(pos);
            proof {
                let before = twists@;
                let after = before.push(t);
                assert forall|u: Twist|
                    self.spec_contains(u) && u.spec_index() < pos + 1 implies after.contains(u) by {
                    if u.spec_index() < bound {
                        let i = choose|i: int| 0 <= i < before.len() && before[i] == u;
                        assert(after[i] == u);
                    } else {
                        assert(bit_is_set(scanned, u.spec_index()));
                        assert(u.spec_index() == pos);
                        lemma_twist_index(u);
                        assert(after[before.len() as int] == u);
                    }
                }
                bound = pos + 1;
            }
            twists.push(t);
        }
        proof {
            lemma_zero_has_no_bits();
            assert forall|t: Twist| self.spec_contains(t) implies twists@.contains(t) by {
                assert(bit_is_set(given, t.spec_index()));
                assert(!bit_is_set(bits, t.spec_index()));
            }
        }
        twists
    }
}

proof fn lemma_single_bound(e: u32)
    by (bit_vector)
    requires
        e < 18,
    ensures
        (1u32 << e) < 0x40000,
{
}

proof fn lemma_word_test(a: u32, e: u32)
    by (bit_vector)
    requires
        e < 32,
    ensures
        (a & (1u32 << e) != 0) <==> (((a as u64) >> (e as u64)) & 1 == 1),
{
}

proof fn lemma_count_bound(m: u64, k: int)
    requires
        0 <= k,
    ensures
        count_set_below(m, k) <= k,
    decreases k,
{
    if k > 0 {
        lemma_count_bound(m, k - 1);
    }
}

/// `rand::rngs::StdRng`, the generator of `rand` that a seed sets up. Nothing
/// is said of what it holds.
#[verifier::external_type_specification]
#[verifier::external_body]
pub struct ExStdRng(rand::rngs::StdRng);

/// `SeedableRng::seed_from_u64` makes a generator from a seed.
#[verifier::external_body]
fn seeded_rng(seed: u64) -> (rng: rand::rngs::StdRng) {
    rand::SeedableRng::seed_from_u64(seed)
}

/// `Rng::gen_range` on `0..n` gives a number at least 0 and below `n`; it
/// panics on an empty range.
#[verifier::external_body]
fn random_below(rng: &mut rand::rngs::StdRng, n: u32) -> (r: u32)
    requires
        n > 0,
    ensures
        r < n,
{
    rand::Rng::gen_range(rng, 0..n)
}

/// A source of random turns out of a given set.
pub struct RandomTwistGen {
    rng: rand::rngs::StdRng,
    twists: Twists,
}

impl RandomTwistGen {
    /// The set that the turns are drawn from.
    pub closed spec fn spec_twists(&self) -> Twists {
        self.twists
    }

    pub fn new(seed: u64, twists: Twists) -> (r: Self)
        ensures
            r.spec_twists() == twists,
    {
        Self { rng: seeded_rng(seed), twists }
    }

    /// A turn of the set.
    pub fn gen_twist(&mut self) -> (t: Twist)
        requires
            old(self).spec_twists().well_formed(),
            old(self).spec_twists().spec_count() > 0,
        ensures
            final(self).spec_twists() == old(self).spec_twists(),
            final(self).spec_twists().spec_contains(t),
    {
        let all = self.twists.iter();
        let n = self.twists.count();
        let idx = random_below(&mut self.rng, n as u32);
        all[idx as usize]
    }

    /// `count` turns of the set.
    pub fn gen_twists(&mut self, count: usize) -> (r: Vec<Twist>)
        requires
            old(self).spec_twists().well_formed(),
            old(self).spec_twists().spec_count() > 0,
        ensures
            final(self).spec_twists() == old(self).spec_twists(),
            r@.len() == count,
            forall|i: int| 0 <= i < count ==> final(self).spec_twists().spec_contains(#[trigger] r@[i]),
    {
        let all = self.twists.iter();
        let n = self.twists.count();
        let mut twists: Vec<Twist> = Vec::with_capacity(count);
        for k in 0..count
            invariant
                self.spec_twists() == old(self).spec_twists(),
                0 < n <= 64,
                all@.len() == n,
                forall|i: int| 0 <= i < all@.len() ==> self.spec_twists().spec_contains(#[trigger] all@[i]),
                twists@.len() == k,
                forall|i: int| 0 <= i < k ==> self.spec_twists().spec_contains(#[trigger] twists@[i]),
        {
            let idx = random_below(&mut self.rng, n as u32);
            twists.push(all[idx as usize]);
        }
        twists
    }
}

} // verus!
