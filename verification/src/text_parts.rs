//! Texts taken apart: blanks, lists and numbers.

use crate::sorted_map;
use vstd::prelude::*;

verus! {

/// Whether a code point has the Unicode property White_Space.
pub open spec fn is_blank_code(code: int) -> bool {
    9 <= code <= 13 || code == 0x20 || code == 0x85 || code == 0xa0 || code == 0x1680 || 0x2000 <= code <= 0x200a || code == 0x2028 || code
        == 0x2029 || code == 0x202f || code == 0x205f || code == 0x3000
}

/// Whether a character is white space.
pub open spec fn is_blank(c: char) -> bool {
    is_blank_code(c as int)
}

fn blank(c: char) -> (r: bool)
    ensures
        r == is_blank(c),
{
    let code: u32 = c as u32;
    (9 <= code && code <= 13) || code == 0x20 || code == 0x85 || code == 0xa0 || code == 0x1680 || (0x2000 <= code && code <= 0x200a) || code
        == 0x2028 || code == 0x2029 || code == 0x202f || code == 0x205f || code == 0x3000
}

/// A text without the white space at its ends.
pub open spec fn trimmed(text: Seq<char>) -> Seq<char>
    decreases text.len(),
{
    if text.len() > 0 && is_blank(text[0]) {
        trimmed(text.drop_first())
    } else if text.len() > 0 && is_blank(text.last()) {
        trimmed(text.drop_last())
    } else {
        text
    }
}

/// Takes the white space off the ends of a text.
pub fn trim(text: &str) -> (r: String)
    ensures
        r@ == trimmed(text@),
{
    let mut from: usize = 0;
    let mut to: usize = text.unicode_len();
    assert(text@.subrange(0, to as int) =~= text@);
    while from < to && blank(text.get_char(from))
        invariant
            from <= to,
            to == text@.len(),
            trimmed(text@) == trimmed(text@.subrange(from as int, to as int)),
        decreases to - from,
    {
        assert(text@.subrange(from as int, to as int).drop_first() =~= text@.subrange(from + 1, to as int));
        from = from + 1;
    }
    while from < to && blank(text.get_char(to - 1))
        invariant
            from <= to <= text@.len(),
            from < to ==> !is_blank(text@[from as int]),
            trimmed(text@) == trimmed(text@.subrange(from as int, to as int)),
        decreases to - from,
    {
        assert(text@.subrange(from as int, to as int).drop_last() =~= text@.subrange(from as int, to - 1));
        to = to - 1;
    }
    text.substring_char(from, to).to_owned()
}

/// The parts of a text between the places at which a character stands.
pub open spec fn pieces(text: Seq<char>, mark: char) -> Seq<Seq<char>>
    decreases text.len(),
{
    if text.len() == 0 {
        seq![text]
    } else {
        let before = pieces(text.drop_last(), mark);
        if text.last() == mark {
            before.push(Seq::empty())
        } else {
            before.drop_last().push(before.last().push(text.last()))
        }
    }
}

/// Takes a text apart at a character.
pub fn split_text(text: &str, mark: char) -> (r: Vec<String>)
    ensures
        r.deep_view() == pieces(text@, mark),
{
    let ghost s = text@;
    let n: usize = text.unicode_len();
    let mut r: Vec<String> = Vec::new();
    let mut from: usize = 0;
    let mut i: usize = 0;
    proof {
        assert(s.take(0) =~= Seq::empty());
        assert(s.subrange(0, 0) =~= Seq::empty());
        assert(r.deep_view().push(s.subrange(0, 0)) =~= pieces(s.take(0), mark));
    }
    while i < n
        invariant
            from <= i <= n,
            s == text@,
            n == s.len(),
            pieces(s.take(i as int), mark) == r.deep_view().push(s.subrange(from as int, i as int)),
        decreases n - i,
    {
        proof {
            sorted_map::prefix_grows(s, i as int);
        }
        let ghost before = r.deep_view();
        let ghost part = s.subrange(from as int, i as int);
        if text.get_char(i) == mark {
            r.push(text.substring_char(from, i).to_owned());
            assert(r.deep_view() =~= before.push(part));
            from = i + 1;
            assert(s.subrange(from as int, i + 1) =~= Seq::empty());
        } else {
            assert(before.push(part).drop_last() =~= before);
            assert(s.subrange(from as int, i + 1) =~= part.push(s[i as int]));
        }
        i = i + 1;
    }
    assert(s.take(n as int) =~= s);
    let ghost before = r.deep_view();
    r.push(text.substring_char(from, n).to_owned());
    assert(r.deep_view() =~= before.push(s.subrange(from as int, n as int)));
    r
}

/// The parts that hold more than white space, without the white space at their ends.
pub open spec fn items(parts: Seq<Seq<char>>) -> Seq<Seq<char>>
    decreases parts.len(),
{
    if parts.len() == 0 {
        parts
    } else if trimmed(parts.last()).len() == 0 {
        items(parts.drop_last())
    } else {
        items(parts.drop_last()).push(trimmed(parts.last()))
    }
}

/// The items of a list that is written with commas.
pub open spec fn list_items(text: Seq<char>) -> Seq<Seq<char>> {
    items(pieces(text, ','))
}

/// Takes a list apart that is written with commas.
pub fn split_list(text: &str) -> (r: Vec<String>)
    ensures
        r.deep_view() == list_items(text@),
{
    let parts = split_text(text, ',');
    let ghost all = parts.deep_view();
    let mut r: Vec<String> = Vec::new();
    let mut i: usize = 0;
    assert(all.take(0) =~= Seq::empty());
    assert(r.deep_view() =~= Seq::empty());
    while i < parts.len()
        invariant
            i <= parts@.len(),
            all == parts.deep_view(),
            r.deep_view() == items(all.take(i as int)),
        decreases parts@.len() - i,
    {
        proof {
            assert(all[i as int] == parts@[i as int]@);
            sorted_map::prefix_grows(all, i as int);
        }
        let item = trim(parts[i].as_str());
        if !item.as_str().is_empty() {
            let ghost before = r.deep_view();
            r.push(item);
            assert(r.deep_view() =~= before.push(item@));
        }
        i = i + 1;
    }
    assert(all.take(i as int) =~= all);
    r
}

/// The number that a row of decimal digits stands for, if each character is a digit.
pub open spec fn digits_value(text: Seq<char>) -> Option<int>
    decreases text.len(),
{
    if text.len() == 0 {
        Some(0)
    } else {
        let c = text.last() as int;
        match digits_value(text.drop_last()) {
            Some(value) if 48 <= c <= 57 => Some(10 * value + (c - 48)),
            _ => None,
        }
    }
}

/// The digits of a number that may begin with a sign.
pub open spec fn unsigned_part(text: Seq<char>) -> Seq<char> {
    if text.len() > 0 && (text[0] == '-' || text[0] == '+') {
        text.skip(1)
    } else {
        text
    }
}

/// The 32-bit number that a text stands for: a sign or none, and then at least one decimal digit
/// and nothing else.
pub open spec fn parsed_i32(text: Seq<char>) -> Option<int> {
    let digits = unsigned_part(text);
    match digits_value(digits) {
        None => None,
        Some(size) => {
            let value = if text.len() > 0 && text[0] == '-' {
                -size
            } else {
                size
            };
            if digits.len() > 0 && i32::MIN <= value <= i32::MAX {
                Some(value)
            } else {
                None
            }
        },
    }
}

proof fn digits_only_grow(text: Seq<char>, n: int)
    requires
        0 <= n <= text.len(),
    ensures
        digits_value(text.take(n)) is None ==> digits_value(text) is None,
        digits_value(text.take(n)) is Some && digits_value(text) is Some ==> 0 <= digits_value(text.take(n))->0 <= digits_value(text)->0,
    decreases text.len(),
{
    if n < text.len() {
        digits_only_grow(text.drop_last(), n);
        assert(text.drop_last().take(n) =~= text.take(n));
    } else {
        assert(text.take(n) =~= text);
        if n > 0 {
            digits_only_grow(text.drop_last(), 0);
            assert(text.take(0) =~= Seq::empty());
            assert(text.drop_last().take(0) =~= Seq::empty());
        }
    }
}

/// Reads a 32-bit number.
pub fn parse_i32(text: &str) -> (r: Option<i32>)
    ensures
        match r {
            Some(value) => parsed_i32(text@) == Some(value as int),
            None => parsed_i32(text@) is None,
        },
{
    let n: usize = text.unicode_len();
    let mut from: usize = 0;
    let mut negative = false;
    if n > 0 {
        let first = text.get_char(0);
        negative = first == '-';
        if first == '-' || first == '+' {
            from = 1;
        }
    }
    let ghost digits = unsigned_part(text@);
    assert(digits =~= text@.subrange(from as int, n as int));
    if from == n {
        return None;
    }
    let mut size: i64 = 0;
    let mut i: usize = from;
    assert(digits.take(0) =~= Seq::empty());
    while i < n
        invariant
            from <= i <= n,
            from < n,
            n == text@.len(),
            digits == unsigned_part(text@),
            digits == text@.subrange(from as int, n as int),
            negative == (text@[0] == '-'),
            0 <= size <= 0x8000_0000,
            digits_value(digits.take(i - from)) == Some(size as int),
        decreases n - i,
    {
        proof {
            sorted_map::prefix_grows(digits, i - from);
            digits_only_grow(digits, i - from + 1);
        }
        let c: u32 = text.get_char(i) as u32;
        if c < 48 || c > 57 {
            return None;
        }
        size = 10 * size + (c - 48) as i64;
        if size > 0x8000_0000 {
            return None;
        }
        i = i + 1;
    }
    assert(digits.take(i - from) =~= digits);
    let value: i64 = if negative {
        -size
    } else {
        size
    };
    if value > 0x7fff_ffff {
        None
    } else {
        Some(value as i32)
    }
}

} // verus!
