//! Character-level text helpers: decimal digits of an integer, and the
//! conversions between `String` and `Vec<char>` that the composite-key
//! builder and the batch codec work on.

use vstd::prelude::*;
use vstd::string::StrSliceExecFns;

use crate::parser::pow10;

verus! {

/// The decimal digit character for `d`.
pub open spec fn digit_char(d: int) -> char {
    if d == 0 {
        '0'
    } else if d == 1 {
        '1'
    } else if d == 2 {
        '2'
    } else if d == 3 {
        '3'
    } else if d == 4 {
        '4'
    } else if d == 5 {
        '5'
    } else if d == 6 {
        '6'
    } else if d == 7 {
        '7'
    } else if d == 8 {
        '8'
    } else {
        '9'
    }
}

/// The decimal digits of `n`, most significant first, without a sign and
/// without leading zeros (`0` itself reads "0").
pub open spec fn dec_digits(n: int) -> Seq<char>
    recommends
        n >= 0,
    decreases n,
{
    if n < 10 {
        seq![digit_char(n)]
    } else {
        dec_digits(n / 10).push(digit_char(n % 10))
    }
}

pub fn digit_char_exec(d: u64) -> (c: char)
    requires
        d < 10,
    ensures
        c == digit_char(d as int),
{
    if d == 0 {
        '0'
    } else if d == 1 {
        '1'
    } else if d == 2 {
        '2'
    } else if d == 3 {
        '3'
    } else if d == 4 {
        '4'
    } else if d == 5 {
        '5'
    } else if d == 6 {
        '6'
    } else if d == 7 {
        '7'
    } else if d == 8 {
        '8'
    } else {
        '9'
    }
}

/// Appends the decimal digits of `n` to `v`.
pub fn push_digits(v: &mut Vec<char>, n: u64)
    ensures
        final(v)@ == old(v)@ + dec_digits(n as int),
    decreases n,
{
    if n < 10 {
        v.push(digit_char_exec(n));
        assert(final(v)@ =~= old(v)@ + dec_digits(n as int));
    } else {
        push_digits(v, n / 10);
        v.push(digit_char_exec(n % 10));
        assert(final(v)@ =~= old(v)@ + dec_digits(n as int));
    }
}

/// Appends the decimal digits of a nonnegative wide integer to `v`.
pub fn push_digits_i128(v: &mut Vec<char>, n: i128)
    requires
        n >= 0,
    ensures
        final(v)@ == old(v)@ + dec_digits(n as int),
    decreases n,
{
    if n < 10 {
        v.push(digit_char_exec(n as u64));
        assert(final(v)@ =~= old(v)@ + dec_digits(n as int));
    } else {
        push_digits_i128(v, n / 10);
        v.push(digit_char_exec((n % 10) as u64));
        assert(final(v)@ =~= old(v)@ + dec_digits(n as int));
    }
}

/// The decimal digits of `n`, zero-padded on the left to exactly `width`
/// digits.
pub open spec fn dec_digits_padded(n: int, width: int) -> Seq<char>
    recommends
        n >= 0,
    decreases width,
{
    if width <= 1 {
        seq![digit_char(n)]
    } else {
        dec_digits_padded(n / 10, width - 1).push(digit_char(n % 10))
    }
}

/// Appends exactly `width` digits of `n`, zero-padded.
pub fn push_digits_padded(v: &mut Vec<char>, n: i128, width: usize)
    requires
        n >= 0,
        width >= 1,
        n < pow10(width as int),
    ensures
        final(v)@ == old(v)@ + dec_digits_padded(n as int, width as int),
    decreases width,
{
    if width == 1 {
        proof {
            reveal_with_fuel(pow10, 3);
        }
        v.push(digit_char_exec((n % 10) as u64));
        assert(final(v)@ =~= old(v)@ + dec_digits_padded(n as int, width as int)) by {
            assert(dec_digits_padded(n as int, 1) == seq![digit_char(n as int)]);
        }
    } else {
        push_digits_padded(v, n / 10, width - 1);
        v.push(digit_char_exec((n % 10) as u64));
        assert(final(v)@ =~= old(v)@ + dec_digits_padded(n as int, width as int));
    }
}

/// The characters of `s`, in order.
pub fn string_to_chars(s: &str) -> (r: Vec<char>)
    ensures
        r@ == s@,
{
    let n = s.unicode_len();
    let mut r: Vec<char> = Vec::new();
    let mut i: usize = 0;
    while i < n
        invariant
            i <= n,
            n == s@.len(),
            r@ == s@.take(i as int),
        decreases n - i,
    {
        r.push(s.get_char(i));
        proof {
            assert(r@ =~= s@.take(i + 1));
        }
        i = i + 1;
    }
    proof {
        assert(s@.take(n as int) =~= s@);
    }
    r
}

/// Relies on `String: FromIterator<char>`: collecting an iterator of chars
/// yields the string of exactly those chars, in order.
#[verifier::external_body]
pub fn chars_to_string(v: &Vec<char>) -> (r: String)
    ensures
        r@ == v@,
{
    v.iter().collect()
}

} // verus!
