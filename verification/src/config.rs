//! The configuration that names the files of the stored tables: lines of the
//! form `key=value`. A line without `=` says nothing, white space around a
//! key and around a value does not count, and where a key stands on several
//! lines the last of them decides.

use vstd::prelude::*;
use vstd::string::*;

verus! {

/// The key of the file of the corner table.
pub const CORNERS_TABLE: &'static str = "corners_table";

/// The key of the file of the table of the subgroup.
pub const SUBSET_TABLE: &'static str = "subset_table";

/// The key of the file of the table of the cosets.
pub const COSET_TABLE: &'static str = "coset_table";

/// The configuration that is written where there is none.
pub const DEFAULT_CONFIG: &'static str =
    "corners_table=corners_table.dat\nsubset_table=subset_table.dat\ncoset_table=coset_table.dat\n";

/// Whether `c` is white space.
pub open spec fn is_blank(c: char) -> bool {
    let n = c as u32;
    (9 <= n <= 13) || n == 0x20 || n == 0x85 || n == 0xA0 || n == 0x1680 || (0x2000 <= n <= 0x200A)
        || n == 0x2028 || n == 0x2029 || n == 0x202F || n == 0x205F || n == 0x3000
}

/// The place of the first `c` of `text` at or after `from` and before `to`,
/// or `to` where there is none.
pub open spec fn first_of(text: Seq<char>, c: char, from: int, to: int) -> int
    decreases to - from,
{
    if from >= to {
        to
    } else if text[from] == c {
        from
    } else {
        first_of(text, c, from + 1, to)
    }
}

/// The first place at or after `from` and before `to` that holds no white
/// space, or `to`.
pub open spec fn skip_blanks(text: Seq<char>, from: int, to: int) -> int
    decreases to - from,
{
    if from >= to {
        to
    } else if !is_blank(text[from]) {
        from
    } else {
        skip_blanks(text, from + 1, to)
    }
}

/// The place behind the last character before `to` and not before `from`
/// that is no white space, or `from`.
pub open spec fn drop_blanks(text: Seq<char>, from: int, to: int) -> int
    decreases to - from,
{
    if to <= from {
        from
    } else if !is_blank(text[to - 1]) {
        to
    } else {
        drop_blanks(text, from, to - 1)
    }
}

/// The characters of `text` from `from` to before `to`, without the white
/// space at both ends.
pub open spec fn spec_trimmed(text: Seq<char>, from: int, to: int) -> Seq<char> {
    let start = skip_blanks(text, from, to);
    text.subrange(start, drop_blanks(text, start, to))
}

/// The value that the line from `from` to before `to` gives to `key`, where
/// it gives one.
pub open spec fn spec_line_value(text: Seq<char>, key: Seq<char>, from: int, to: int) -> Option<
    Seq<char>,
> {
    let at = first_of(text, '=', from, to);
    if at < to && spec_trimmed(text, from, at) == key {
        Some(spec_trimmed(text, at + 1, to))
    } else {
        None
    }
}

/// The value that the lines from `from` on give to `key`.
pub open spec fn spec_value_from(text: Seq<char>, key: Seq<char>, from: int) -> Option<Seq<char>>
    decreases text.len() - from,
{
    if from < 0 || from >= text.len() {
        None
    } else {
        let end = first_of(text, '\n', from, text.len() as int);
        let next = if from <= end < text.len() {
            end + 1
        } else {
            text.len() as int
        };
        match spec_value_from(text, key, next) {
            Some(v) => Some(v),
            None => spec_line_value(text, key, from, end),
        }
    }
}

/// The value that the configuration `text` gives to `key`.
pub open spec fn spec_config_value(text: Seq<char>, key: Seq<char>) -> Option<Seq<char>> {
    spec_value_from(text, key, 0)
}

fn blank(c: char) -> (r: bool)
    ensures
        r == is_blank(c),
{
    let n = c as u32;
    (9 <= n && n <= 13) || n == 0x20 || n == 0x85 || n == 0xA0 || n == 0x1680 || (0x2000 <= n && n
        <= 0x200A) || n == 0x2028 || n == 0x2029 || n == 0x202F || n == 0x205F || n == 0x3000
}

fn find(text: &str, c: char, from: usize, to: usize) -> (r: usize)
    requires
        from <= to <= text@.len(),
    ensures
        r == first_of(text@, c, from as int, to as int),
        from <= r <= to,
{
    let mut i = from;
    while i < to && text.get_char(i) != c
        invariant
            from <= i <= to <= text@.len(),
            first_of(text@, c, from as int, to as int) == first_of(text@, c, i as int, to as int),
        decreases to - i,
    {
        i += 1;
    }
    i
}

fn skip(text: &str, from: usize, to: usize) -> (r: usize)
    requires
        from <= to <= text@.len(),
    ensures
        r == skip_blanks(text@, from as int, to as int),
        from <= r <= to,
{
    let mut i = from;
    while i < to && blank(text.get_char(i))
        invariant
            from <= i <= to <= text@.len(),
            skip_blanks(text@, from as int, to as int) == skip_blanks(text@, i as int, to as int),
        decreases to - i,
    {
        i += 1;
    }
    i
}

fn drop(text: &str, from: usize, to: usize) -> (r: usize)
    requires
        from <= to <= text@.len(),
    ensures
        r == drop_blanks(text@, from as int, to as int),
        from <= r <= to,
{
    let mut i = to;
    while i > from && blank(text.get_char(i - 1))
        invariant
            from <= i <= to <= text@.len(),
            drop_blanks(text@, from as int, to as int) == drop_blanks(text@, from as int, i as int),
        decreases i - from,
    {
        i -= 1;
    }
    i
}

/// Whether the characters of `text` from `from` to before `to` are those of
/// `key`.
fn same(text: &str, from: usize, to: usize, key: &str) -> (r: bool)
    requires
        from <= to <= text@.len(),
    ensures
        r == (text@.subrange(from as int, to as int) == key@),
{
    let n = key.unicode_len();
    if to - from != n {
        return false;
    }
    let mut i: usize = 0;
    while i < n
        invariant
            0 <= i <= n,
            n == key@.len(),
            to - from == n,
            to <= text@.len(),
            forall|k: int| 0 <= k < i ==> text@[from + k] == key@[k],
        decreases n - i,
    {
        if text.get_char(from + i) != key.get_char(i) {
            proof {
                assert(text@.subrange(from as int, to as int)[i as int] != key@[i as int]);
            }
            return false;
        }
        i += 1;
    }
    proof {
        assert(text@.subrange(from as int, to as int) =~= key@);
    }
    true
}

/// The value that the configuration `text` gives to `key`, without the white
/// space around it.
pub fn config_value<'a>(text: &'a str, key: &str) -> (r: Option<&'a str>)
    ensures
        r is Some <==> spec_config_value(text@, key@) is Some,
        r matches Some(v) ==> v@ == spec_config_value(text@, key@)->Some_0,
{
    let n = text.unicode_len();
    let mut found: Option<&'a str> = None;
    let mut from: usize = 0;
    while from < n
        invariant
            from <= n,
            n == text@.len(),
            spec_config_value(text@, key@) is Some <==> (found is Some || spec_value_from(
                text@,
                key@,
                from as int,
            ) is Some),
            spec_value_from(text@, key@, from as int) matches Some(v) ==> spec_config_value(
                text@,
                key@,
            ) == Some(v),
            spec_value_from(text@, key@, from as int) is None && found is Some
                ==> spec_config_value(text@, key@) == Some(found->Some_0@),
        decreases n - from,
    {
        let end = find(text, '\n', from, n);
        let at = find(text, '=', from, end);
        if at < end {
            let start = skip(text, from, at);
            let stop = drop(text, start, at);
            if same(text, start, stop, key) {
                let first = skip(text, at + 1, end);
                let last = drop(text, first, end);
                found = Some(text.substring_char(first, last));
            }
        }
        from = if end < n {
            end + 1
        } else {
            n
        };
    }
    found
}

} // verus!
