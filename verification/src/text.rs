//! Text helpers: comparison, order, splitting, and decimal numbers.

use vstd::prelude::*;

verus! {

/// Strict order on text: by the first character that differs, a proper prefix first.
///
/// On UTF-8 this is also the order of the encoded bytes.
pub open spec fn text_before(a: Seq<char>, b: Seq<char>) -> bool
    decreases a.len(),
{
    if b.len() == 0 {
        false
    } else if a.len() == 0 {
        true
    } else if a[0] != b[0] {
        (a[0] as int) < (b[0] as int)
    } else {
        text_before(a.drop_first(), b.drop_first())
    }
}

/// No text stands before itself.
pub proof fn text_before_irreflexive(a: Seq<char>)
    ensures
        !text_before(a, a),
    decreases a.len(),
{
    if a.len() > 0 {
        text_before_irreflexive(a.drop_first());
    }
}

/// The order on text is transitive.
pub proof fn text_before_transitive(a: Seq<char>, b: Seq<char>, c: Seq<char>)
    requires
        text_before(a, b),
        text_before(b, c),
    ensures
        text_before(a, c),
    decreases a.len(),
{
    if a.len() > 0 && a[0] == b[0] && b[0] == c[0] {
        text_before_transitive(a.drop_first(), b.drop_first(), c.drop_first());
    }
}

/// Of two different texts one stands before the other.
pub proof fn text_before_total(a: Seq<char>, b: Seq<char>)
    ensures
        a == b || text_before(a, b) || text_before(b, a),
    decreases a.len(),
{
    if a.len() > 0 && b.len() > 0 && a[0] == b[0] {
        text_before_total(a.drop_first(), b.drop_first());
        if a.drop_first() == b.drop_first() {
            assert(a == seq![a[0]] + a.drop_first());
            assert(b == seq![b[0]] + b.drop_first());
        }
    } else if a.len() == 0 && b.len() == 0 {
        assert(a == b);
    }
}

/// The outcome of comparing two keys.
#[derive(Clone, Copy, PartialEq, Eq, Structural, Debug)]
pub enum Relation {
    Before,
    Same,
    After,
}

/// Compares two texts by `text_before`.
pub fn compare_text(a: &str, b: &str) -> (r: Relation)
    ensures
        r == Relation::Before <==> text_before(a@, b@),
        r == Relation::Same <==> a@ == b@,
        r == Relation::After <==> text_before(b@, a@),
{
    let r = walk_texts(a, b);
    proof {
        text_before_irreflexive(a@);
        if text_before(a@, b@) && text_before(b@, a@) {
            text_before_transitive(a@, b@, a@);
        }
    }
    r
}

/// Walks along two texts to the first character in which they differ.
fn walk_texts(a: &str, b: &str) -> (r: Relation)
    ensures
        match r {
            Relation::Before => text_before(a@, b@),
            Relation::Same => a@ == b@,
            Relation::After => text_before(b@, a@),
        },
{
    let mut left = a.chars();
    let mut right = b.chars();
    let ghost mut skipped: int = 0;
    assert(a@.skip(0) == a@);
    assert(b@.skip(0) == b@);
    loop
        invariant
            0 <= skipped <= a@.len(),
            skipped <= b@.len(),
            vstd::std_specs::iter::IteratorSpec::remaining(&left) == a@.skip(skipped),
            vstd::std_specs::iter::IteratorSpec::remaining(&right) == b@.skip(skipped),
            a@.take(skipped) == b@.take(skipped),
            text_before(a@, b@) == text_before(a@.skip(skipped), b@.skip(skipped)),
            text_before(b@, a@) == text_before(b@.skip(skipped), a@.skip(skipped)),
        decreases a@.len() - skipped,
    {
        let x = left.next();
        let y = right.next();
        match (x, y) {
            (None, None) => {
                assert(a@ == a@.take(skipped));
                assert(b@ == b@.take(skipped));
                return Relation::Same;
            },
            (None, Some(_)) => {
                return Relation::Before;
            },
            (Some(_), None) => {
                return Relation::After;
            },
            (Some(c), Some(d)) => {
                if c != d {
                    if c < d {
                        return Relation::Before;
                    }
                    return Relation::After;
                }
                proof {
                    assert(a@.skip(skipped).drop_first() == a@.skip(skipped + 1));
                    assert(b@.skip(skipped).drop_first() == b@.skip(skipped + 1));
                    assert(a@.take(skipped + 1) == a@.take(skipped).push(a@[skipped]));
                    assert(b@.take(skipped + 1) == b@.take(skipped).push(b@[skipped]));
                    skipped = skipped + 1;
                }
            },
        }
    }
}

/// Whether two texts hold the same characters.
pub fn same_text(a: &str, b: &str) -> (r: bool)
    ensures
        r == (a@ == b@),
{
    compare_text(a, b) == Relation::Same
}

/// Whether a list holds a text.
pub fn lists_text(texts: &Vec<String>, text: &str) -> (r: bool)
    ensures
        r == texts.deep_view().contains(text@),
{
    let ghost all = texts.deep_view();
    let mut i: usize = 0;
    while i < texts.len()
        invariant
            i <= texts@.len(),
            all == texts.deep_view(),
            forall|j: int| 0 <= j < i ==> #[trigger] all[j] != text@,
        decreases texts@.len() - i,
    {
        assert(all[i as int] == texts@[i as int]@);
        if same_text(texts[i].as_str(), text) {
            return true;
        }
        i = i + 1;
    }
    false
}

/// Whether two lists hold the same texts in the same order.
pub fn same_texts(a: &Vec<String>, b: &Vec<String>) -> (r: bool)
    ensures
        r == (a.deep_view() == b.deep_view()),
{
    if a.len() != b.len() {
        assert(a.deep_view().len() != b.deep_view().len());
        return false;
    }
    let mut i: usize = 0;
    while i < a.len()
        invariant
            i <= a@.len(),
            a@.len() == b@.len(),
            forall|j: int| 0 <= j < i ==> a@[j]@ == b@[j]@,
        decreases a@.len() - i,
    {
        if !same_text(a[i].as_str(), b[i].as_str()) {
            assert(a.deep_view()[i as int] != b.deep_view()[i as int]);
            return false;
        }
        i = i + 1;
    }
    assert(a.deep_view() =~= b.deep_view());
    true
}

/// The character of a decimal digit.
pub open spec fn digit(n: int) -> char {
    if n == 0 {
        '0'
    } else if n == 1 {
        '1'
    } else if n == 2 {
        '2'
    } else if n == 3 {
        '3'
    } else if n == 4 {
        '4'
    } else if n == 5 {
        '5'
    } else if n == 6 {
        '6'
    } else if n == 7 {
        '7'
    } else if n == 8 {
        '8'
    } else {
        '9'
    }
}

/// A natural number in decimal.
pub open spec fn natural_text(n: nat) -> Seq<char>
    decreases n,
{
    if n < 10 {
        seq![digit(n as int)]
    } else {
        natural_text(n / 10).push(digit((n % 10) as int))
    }
}

/// An integer in decimal.
pub open spec fn decimal_text(n: int) -> Seq<char> {
    if n < 0 {
        seq!['-'] + natural_text((-n) as nat)
    } else {
        natural_text(n as nat)
    }
}

fn append_digit(to: &mut String, n: u128)
    requires
        n < 10,
    ensures
        final(to)@ == old(to)@.push(digit(n as int)),
{
    proof {
        reveal_strlit("0");
        reveal_strlit("1");
        reveal_strlit("2");
        reveal_strlit("3");
        reveal_strlit("4");
        reveal_strlit("5");
        reveal_strlit("6");
        reveal_strlit("7");
        reveal_strlit("8");
        reveal_strlit("9");
    }
    let text = if n == 0 {
        "0"
    } else if n == 1 {
        "1"
    } else if n == 2 {
        "2"
    } else if n == 3 {
        "3"
    } else if n == 4 {
        "4"
    } else if n == 5 {
        "5"
    } else if n == 6 {
        "6"
    } else if n == 7 {
        "7"
    } else if n == 8 {
        "8"
    } else {
        "9"
    };
    assert(text@ =~= seq![digit(n as int)]);
    to.append(text);
    assert(to@ =~= old(to)@.push(digit(n as int)));
}

/// Appends a natural number in decimal.
pub fn append_natural(to: &mut String, n: u128)
    ensures
        final(to)@ == old(to)@ + natural_text(n as nat),
    decreases n,
{
    if n >= 10 {
        append_natural(to, n / 10);
    }
    let ghost before = to@;
    append_digit(to, n % 10);
    assert(to@ =~= old(to)@ + natural_text(n as nat));
}

/// Appends an integer in decimal.
pub fn append_decimal(to: &mut String, n: i64)
    ensures
        final(to)@ == old(to)@ + decimal_text(n as int),
{
    if n < 0 {
        proof {
            reveal_strlit("-");
        }
        to.append("-");
        append_natural(to, (-(n as i128)) as u128);
        assert(to@ =~= old(to)@ + decimal_text(n as int));
    } else {
        append_natural(to, n as u128);
    }
}

/// A text followed by an integer in decimal.
pub fn text_with_number(text: &str, n: i64) -> (r: String)
    ensures
        r@ == text@ + decimal_text(n as int),
{
    let mut r = text.to_owned();
    append_decimal(&mut r, n);
    r
}

/// Two texts, one after the other.
pub fn join_texts(a: &str, b: &str) -> (r: String)
    ensures
        r@ == a@ + b@,
{
    let mut r = a.to_owned();
    r.append(b);
    r
}

/// Three texts, one after the other.
pub fn join_three(a: &str, b: &str, c: &str) -> (r: String)
    ensures
        r@ == a@ + b@ + c@,
{
    let mut r = a.to_owned();
    r.append(b);
    r.append(c);
    r
}

/// Whether a text begins with another.
pub open spec fn begins_with(text: Seq<char>, prefix: Seq<char>) -> bool {
    prefix.len() <= text.len() && text.take(prefix.len() as int) == prefix
}

pub fn starts_with(text: &str, prefix: &str) -> (r: bool)
    ensures
        r == begins_with(text@, prefix@),
{
    let n: usize = prefix.unicode_len();
    if n > text.unicode_len() {
        return false;
    }
    let front = text.substring_char(0, n);
    assert(text@.subrange(0, n as int) =~= text@.take(n as int));
    same_text(front, prefix)
}

/// Whether a character occurs in a text.
pub fn has_char(text: &str, c: char) -> (r: bool)
    ensures
        r == text@.contains(c),
{
    let n: usize = text.unicode_len();
    let mut i: usize = 0;
    while i < n
        invariant
            i <= n,
            n == text@.len(),
            forall|j: int| 0 <= j < i ==> text@[j] != c,
        decreases n - i,
    {
        if text.get_char(i) == c {
            return true;
        }
        i = i + 1;
    }
    false
}

/// A text as the `Debug` of `str` writes it: in quotes, with what could be misread escaped.
pub uninterp spec fn debug_text(text: Seq<char>) -> Seq<char>;

/// Writes a text with the `Debug` of `str`, which puts it in quotes and escapes what could be misread.
/// The contract claims that what is written depends on the text alone.
#[verifier::external_body]
pub(crate) fn quote(text: &str) -> (r: String)
    ensures
        r@ == debug_text(text@),
{
    format!("{:?}", text)
}

/// The first `n` texts of a list in quotes, with commas between them.
pub open spec fn quoted_texts(list: Seq<Seq<char>>, n: nat) -> Seq<char>
    decreases n,
{
    if n == 0 {
        Seq::empty()
    } else if n == 1 {
        debug_text(list[0])
    } else {
        quoted_texts(list, (n - 1) as nat) + ", "@ + debug_text(list[n - 1])
    }
}

/// Writes texts in quotes, with commas between them.
pub fn quote_texts(list: &Vec<String>) -> (r: String)
    ensures
        r@ == quoted_texts(list.deep_view(), list.deep_view().len()),
{
    let ghost all = list.deep_view();
    let mut r = String::new();
    let mut i: usize = 0;
    assert(r@ =~= Seq::empty());
    while i < list.len()
        invariant
            i <= list@.len(),
            all == list.deep_view(),
            r@ == quoted_texts(all, i as nat),
        decreases list@.len() - i,
    {
        assert(all[i as int] == list@[i as int]@);
        let ghost before = r@;
        if i > 0 {
            r.append(", ");
        }
        r.append(quote(list[i].as_str()).as_str());
        proof {
            if i == 0 {
                assert(r@ =~= debug_text(all[0]));
            }
        }
        i = i + 1;
    }
    r
}

} // verus!
