//! What comes from outside: the present instant and ids that nobody has used.

use crate::time;
use crate::time::Timestamp;
use vstd::prelude::*;

verus! {

/// Reads the clock with `chrono::Utc::now` and takes the instant apart with `DateTime::timestamp` and
/// `DateTime::timestamp_subsec_nanos`. Nothing is claimed of which instant it is, only that it is not
/// before the Unix epoch, that chrono's calendar covers it, and that the nanoseconds lie within one
/// second. The call panics where the system clock stands before the epoch or beyond the calendar.
#[verifier::external_body]
fn read_clock() -> (r: (i64, u32))
    ensures
        0 <= r.0 <= 8_210_266_876_799,
        r.1 < 1_000_000_000,
{
    let now = chrono::Utc::now();
    (now.timestamp(), now.timestamp_subsec_nanos())
}

/// Draws an id with `uuid::Uuid::new_v4`. Nothing is claimed of which id it is, only that it is marked
/// as a random one: its version is four, and its variant the usual one. The call panics where the
/// operating system gives no random bytes.
#[verifier::external_body]
fn draw_id() -> (r: u128)
    ensures
        (r / 0x1000_0000_0000_0000_0000) % 16 == 4,
        (r / 0x4000_0000_0000_0000) % 4 == 2,
{
    uuid::Uuid::new_v4().as_u128()
}

/// The instant so many seconds and nanoseconds after the epoch.
pub fn instant_of(seconds: i64, nanos: u32) -> (r: Timestamp)
    ensures
        r.nanos == seconds * 1_000_000_000 + nanos,
{
    Timestamp { nanos: seconds as i128 * 1_000_000_000 + nanos as i128 }
}

/// Whether an instant can be read from the clock: it is not before the epoch, and the calendar covers
/// it.
pub open spec fn is_reading(at: int) -> bool {
    0 <= at < (time::LAST_MILLI + 1) * 1_000_000
}

/// Whether an instant in whole milliseconds can be read from the clock.
pub open spec fn is_reading_ms(at_ms: i64) -> bool {
    0 <= at_ms <= time::LAST_MILLI
}

/// Whether an id can have been drawn: it is marked as a random one, and so is not zero.
pub open spec fn is_drawn(id: u128) -> bool {
    &&& id != 0
    &&& (id / 0x1000_0000_0000_0000_0000) % 16 == 4
    &&& (id / 0x4000_0000_0000_0000) % 4 == 2
}

/// The present instant.
pub fn now() -> (r: Timestamp)
    ensures
        is_reading(r.deep_view()),
{
    let (seconds, nanos) = read_clock();
    instant_of(seconds, nanos)
}

/// The present instant in whole milliseconds.
pub fn now_ms() -> (r: i64)
    ensures
        is_reading_ms(r),
{
    now().millis()
}

/// An id that nobody has used: a random one, which is never zero.
pub fn fresh_id() -> (r: u128)
    ensures
        is_drawn(r),
{
    draw_id()
}

/// The character of a hexadecimal digit.
pub open spec fn hex_digit(n: int) -> char {
    "0123456789abcdef"@[n]
}

/// The last `width` hexadecimal digits of a number.
pub open spec fn hex_text(n: nat, width: nat) -> Seq<char>
    decreases width,
{
    if width == 0 {
        Seq::empty()
    } else {
        hex_text(n / 16, (width - 1) as nat).push(hex_digit((n % 16) as int))
    }
}

/// An id as it is written: thirty-two hexadecimal digits in five groups.
pub open spec fn id_text(id: u128) -> Seq<char> {
    let digits = hex_text(id as nat, 32);
    digits.subrange(0, 8) + "-"@ + digits.subrange(8, 12) + "-"@ + digits.subrange(12, 16) + "-"@ + digits.subrange(16, 20) + "-"@
        + digits.subrange(20, 32)
}

proof fn hex_text_has_its_width(n: nat, width: nat)
    ensures
        hex_text(n, width).len() == width,
    decreases width,
{
    if width > 0 {
        hex_text_has_its_width(n / 16, (width - 1) as nat);
    }
}

fn write_hex(n: u128, width: usize) -> (r: String)
    ensures
        r@ == hex_text(n as nat, width as nat),
    decreases width,
{
    if width == 0 {
        let r = String::new();
        assert(r@ =~= Seq::empty());
        return r;
    }
    let mut r = write_hex(n / 16, width - 1);
    let ghost before = r@;
    let at: usize = (n % 16) as usize;
    proof {
        reveal_strlit("0123456789abcdef");
        assert("0123456789abcdef"@.len() == 16);
    }
    r.append("0123456789abcdef".substring_char(at, at + 1));
    assert(r@ =~= before.push(hex_digit(n as int % 16)));
    r
}

/// Writes an id.
pub fn write_id(id: u128) -> (r: String)
    ensures
        r@ == id_text(id),
{
    let digits = write_hex(id, 32);
    proof {
        hex_text_has_its_width(id as nat, 32);
    }
    let mut r = digits.as_str().substring_char(0, 8).to_owned();
    r.append("-");
    r.append(digits.as_str().substring_char(8, 12));
    r.append("-");
    r.append(digits.as_str().substring_char(12, 16));
    r.append("-");
    r.append(digits.as_str().substring_char(16, 20));
    r.append("-");
    r.append(digits.as_str().substring_char(20, 32));
    r
}

proof fn hex_texts_differ(a: nat, b: nat, width: nat)
    requires
        hex_text(a, width) == hex_text(b, width),
    ensures
        a % vstd::arithmetic::power::pow(16, width) as nat == b % vstd::arithmetic::power::pow(16, width) as nat,
    decreases width,
{
    vstd::arithmetic::power::lemma_pow_positive(16, width);
    if width == 0 {
        vstd::arithmetic::power::lemma_pow0(16);
    } else {
        let m = vstd::arithmetic::power::pow(16, (width - 1) as nat);
        vstd::arithmetic::power::lemma_pow_positive(16, (width - 1) as nat);
        let x = hex_text(a, width);
        let y = hex_text(b, width);
        assert(x.drop_last() =~= hex_text(a / 16, (width - 1) as nat));
        assert(y.drop_last() =~= hex_text(b / 16, (width - 1) as nat));
        hex_texts_differ(a / 16, b / 16, (width - 1) as nat);
        assert(x.last() == hex_digit((a % 16) as int));
        assert(y.last() == hex_digit((b % 16) as int));
        hex_digits_differ((a % 16) as int, (b % 16) as int);
        vstd::arithmetic::div_mod::lemma_breakdown(a as int, 16, m);
        vstd::arithmetic::div_mod::lemma_breakdown(b as int, 16, m);
        reveal(vstd::arithmetic::power::pow);
        assert(vstd::arithmetic::power::pow(16, width) == 16 * m);
    }
}

proof fn hex_digits_differ(a: int, b: int)
    requires
        0 <= a < 16,
        0 <= b < 16,
        hex_digit(a) == hex_digit(b),
    ensures
        a == b,
{
    reveal_strlit("0123456789abcdef");
    let s = "0123456789abcdef"@;
    assert(s.len() == 16);
    assert(s[0] == '0' && s[1] == '1' && s[2] == '2' && s[3] == '3' && s[4] == '4' && s[5] == '5' && s[6] == '6' && s[7] == '7');
    assert(s[8] == '8' && s[9] == '9' && s[10] == 'a' && s[11] == 'b' && s[12] == 'c' && s[13] == 'd' && s[14] == 'e' && s[15] == 'f');
}

/// No two ids are written alike.
pub proof fn written_ids_differ(a: u128, b: u128)
    requires
        id_text(a) == id_text(b),
    ensures
        a == b,
{
    let x = hex_text(a as nat, 32);
    let y = hex_text(b as nat, 32);
    hex_text_has_its_width(a as nat, 32);
    hex_text_has_its_width(b as nat, 32);
    reveal_strlit("-");
    let s = id_text(a);
    let t = id_text(b);
    assert forall|i: int| 0 <= i < 32 implies x[i] == y[i] by {
        let at = if i < 8 {
            i
        } else if i < 12 {
            i + 1
        } else if i < 16 {
            i + 2
        } else if i < 20 {
            i + 3
        } else {
            i + 4
        };
        assert(s[at] == x[i]);
        assert(t[at] == y[i]);
    }
    assert(x =~= y);
    hex_texts_differ(a as nat, b as nat, 32);
    assert(vstd::arithmetic::power::pow(16, 32) == 0x1_0000_0000_0000_0000_0000_0000_0000_0000int) by {
        power_of_sixteen();
    }
    vstd::arithmetic::div_mod::lemma_small_mod(a as nat, 0x1_0000_0000_0000_0000_0000_0000_0000_0000nat);
    vstd::arithmetic::div_mod::lemma_small_mod(b as nat, 0x1_0000_0000_0000_0000_0000_0000_0000_0000nat);
}

proof fn power_of_sixteen()
    ensures
        vstd::arithmetic::power::pow(16, 32) == 0x1_0000_0000_0000_0000_0000_0000_0000_0000int,
{
    reveal(vstd::arithmetic::power::pow);
    reveal_with_fuel(vstd::arithmetic::power::pow, 33);
}

/// The text from which a new member id is made.
pub fn fresh_text() -> (r: String)
    ensures
        exists|id: u128| is_drawn(id) && r@ == #[trigger] id_text(id),
{
    write_id(fresh_id())
}

} // verus!
