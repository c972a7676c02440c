//! Lines of text for showing a state: numbers in decimal, and lists of them.

use vstd::prelude::*;
use vstd::string::StringExecFns;

verus! {

/// The character of a decimal digit.
pub open spec fn spec_digit(d: nat) -> char {
    if d == 0 {
        '0'
    } else if d == 1 {
        '1'
    } else if d == 2 {
        '2'
    } else if d == 3 {
        '3'
    } else if d == 4 {
        '4'
    } else if d == 5 {
        '5'
    } else if d == 6 {
        '6'
    } else if d == 7 {
        '7'
    } else if d == 8 {
        '8'
    } else {
        '9'
    }
}

/// The decimal digits of `n`, the highest first, without leading zeros.
pub open spec fn spec_decimal(n: nat) -> Seq<char>
    decreases n,
{
    if n < 10 {
        seq![spec_digit(n)]
    } else {
        spec_decimal(n / 10).push(spec_digit(n % 10))
    }
}

/// The numbers of `list` in decimal, with one space between each two.
pub open spec fn spec_numbers(list: Seq<u8>) -> Seq<char>
    decreases list.len(),
{
    if list.len() == 0 {
        Seq::empty()
    } else if list.len() == 1 {
        spec_decimal(list[0] as nat)
    } else {
        spec_numbers(list.drop_last()) + seq![' '] + spec_decimal(list.last() as nat)
    }
}

/// The line that shows the cubies and then their orientations, parted by a bar.
pub open spec fn spec_cubies_line(cubies: Seq<u8>, orientations: Seq<u8>) -> Seq<char> {
    spec_numbers(cubies) + seq![' ', '|', ' '] + spec_numbers(orientations)
}

fn digit(d: u16) -> (r: &'static str)
    requires
        d < 10,
    ensures
        r@ == seq![spec_digit(d as nat)],
{
    proof {
        reveal_strlit("0");
        reveal_strlit("1");
        reveal_strlit("2");
        reveal_strlit("3");
        reveal_strlit("4");
        reveal_strlit("5");
        reveal_strlit("6");
        reveal_strlit("7");
        reveal_strlit("8");
        reveal_strlit("9");
    }
    let r = if d == 0 {
        "0"
    } else if d == 1 {
        "1"
    } else if d == 2 {
        "2"
    } else if d == 3 {
        "3"
    } else if d == 4 {
        "4"
    } else if d == 5 {
        "5"
    } else if d == 6 {
        "6"
    } else if d == 7 {
        "7"
    } else if d == 8 {
        "8"
    } else {
        "9"
    };
    proof {
        assert(r@ =~= seq![spec_digit(d as nat)]);
    }
    r
}

/// `n` in decimal.
pub(crate) fn decimal(n: u16) -> (r: String)
    ensures
        r@ == spec_decimal(n as nat),
    decreases n,
{
    if n < 10 {
        String::from_str(digit(n))
    } else {
        let mut r = decimal(n / 10);
        r.append(digit(n % 10));
        proof {
            assert(r@ =~= spec_decimal(n as nat));
        }
        r
    }
}

/// The numbers of `list` in decimal, with one space between each two.
fn numbers(list: &[u8]) -> (r: String)
    ensures
        r@ == spec_numbers(list@),
{
    let mut r = String::from_str("");
    proof {
        reveal_strlit("");
        reveal_strlit(" ");
        assert(list@.take(0) =~= Seq::<u8>::empty());
        assert(r@ =~= Seq::<char>::empty());
    }
    for i in 0..list.len()
        invariant
            r@ == spec_numbers(list@.take(i as int)),
    {
        proof {
            reveal_strlit(" ");
            assert(list@.take(i + 1).drop_last() =~= list@.take(i as int));
            assert(" "@ =~= seq![' ']);
            if i == 0 {
                assert(spec_numbers(list@.take(0)) =~= Seq::<char>::empty());
            }
        }
        if i > 0 {
            r.append(" ");
        }
        let number = decimal(list[i] as u16);
        r.append(number.as_str());
        proof {
            if i == 0 {
                assert(r@ =~= spec_decimal(list@[0] as nat));
            }
        }
    }
    proof {
        assert(list@.take(list@.len() as int) =~= list@);
    }
    r
}

/// The numbers of `cubies` and then those of `orientations`, each list written
/// with spaces between its numbers and the two parted by a bar.
pub(crate) fn cubies_line(cubies: &[u8], orientations: &[u8]) -> (line: String)
    ensures
        line@ == spec_cubies_line(cubies@, orientations@),
{
    let mut line = numbers(cubies);
    proof {
        reveal_strlit(" | ");
        assert(" | "@ =~= seq![' ', '|', ' ']);
    }
    line.append(" | ");
    let second = numbers(orientations);
    line.append(second.as_str());
    line
}

/// The name `SubsetCube` and the three coordinates.
pub open spec fn spec_subset_cube_line(e_slice_prm: u8, e_non_slice_prm: u16, c_prm: u16) -> Seq<
    char,
> {
    "SubsetCube { e_slice_prm: "@ + spec_decimal(e_slice_prm as nat) + ", e_non_slice_prm: "@
        + spec_decimal(e_non_slice_prm as nat) + ", c_prm: "@ + spec_decimal(c_prm as nat) + " }"@
}

pub(crate) fn subset_cube_line(e_slice_prm: u8, e_non_slice_prm: u16, c_prm: u16) -> (line: String)
    ensures
        line@ == spec_subset_cube_line(e_slice_prm, e_non_slice_prm, c_prm),
{
    let mut line = String::from_str("SubsetCube { e_slice_prm: ");
    line.append(decimal(e_slice_prm as u16).as_str());
    line.append(", e_non_slice_prm: ");
    line.append(decimal(e_non_slice_prm).as_str());
    line.append(", c_prm: ");
    line.append(decimal(c_prm).as_str());
    line.append(" }");
    line
}

/// The name `CosetCube` and the three coordinates.
pub open spec fn spec_coset_cube_line(c_ori: u16, e_ori: u16, e_slice_loc: u16) -> Seq<char> {
    "CosetCube { c_ori: "@ + spec_decimal(c_ori as nat) + ", e_ori: "@ + spec_decimal(e_ori as nat)
        + ", e_slice_loc: "@ + spec_decimal(e_slice_loc as nat) + " }"@
}

pub(crate) fn coset_cube_line(c_ori: u16, e_ori: u16, e_slice_loc: u16) -> (line: String)
    ensures
        line@ == spec_coset_cube_line(c_ori, e_ori, e_slice_loc),
{
    let mut line = String::from_str("CosetCube { c_ori: ");
    line.append(decimal(c_ori).as_str());
    line.append(", e_ori: ");
    line.append(decimal(e_ori).as_str());
    line.append(", e_slice_loc: ");
    line.append(decimal(e_slice_loc).as_str());
    line.append(" }");
    line
}

/// The name `Cube` and the six coordinates.
pub open spec fn spec_cube_line(
    c_prm: u16,
    c_ori: u16,
    e_non_slice_prm: u16,
    e_slice_prm: u8,
    e_slice_loc: u16,
    e_ori: u16,
) -> Seq<char> {
    "Cube { c_prm: "@ + spec_decimal(c_prm as nat) + ", c_ori: "@ + spec_decimal(c_ori as nat)
        + ", e_non_slice_prm: "@ + spec_decimal(e_non_slice_prm as nat) + ", e_slice_prm: "@
        + spec_decimal(e_slice_prm as nat) + ", e_slice_loc: "@ + spec_decimal(e_slice_loc as nat)
        + ", e_ori: "@ + spec_decimal(e_ori as nat) + " }"@
}

pub(crate) fn cube_line(
    c_prm: u16,
    c_ori: u16,
    e_non_slice_prm: u16,
    e_slice_prm: u8,
    e_slice_loc: u16,
    e_ori: u16,
) -> (line: String)
    ensures
        line@ == spec_cube_line(c_prm, c_ori, e_non_slice_prm, e_slice_prm, e_slice_loc, e_ori),
{
    let mut line = String::from_str("Cube { c_prm: ");
    line.append(decimal(c_prm).as_str());
    line.append(", c_ori: ");
    line.append(decimal(c_ori).as_str());
    line.append(", e_non_slice_prm: ");
    line.append(decimal(e_non_slice_prm).as_str());
    line.append(", e_slice_prm: ");
    line.append(decimal(e_slice_prm as u16).as_str());
    line.append(", e_slice_loc: ");
    line.append(decimal(e_slice_loc).as_str());
    line.append(", e_ori: ");
    line.append(decimal(e_ori).as_str());
    line.append(" }");
    line
}

/// The three decimal digits of a number below 1000, with leading zeros.
pub open spec fn spec_three_digits(m: nat) -> Seq<char> {
    seq![spec_digit(m / 100), spec_digit((m / 10) % 10), spec_digit(m % 10)]
}

/// The decimal digits of `n` in groups of three, counted from the right, with
/// a right single quotation mark between each two groups.
pub open spec fn spec_grouped(n: nat) -> Seq<char>
    decreases n,
{
    if n < 1000 {
        spec_decimal(n)
    } else {
        spec_grouped(n / 1000) + seq!['\u{2019}'] + spec_three_digits(n % 1000)
    }
}

} // verus!
