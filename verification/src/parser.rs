//! The reward-batch codec: a tolerant decoder for the compact batch dialect,
//! and the canonical encoder it round-trips with.
//!
//! A batch is an array of objects; each object names a receipt series
//! (`pair_receipt_address`, a string) and its per-order rewards
//! (`pair_rewards`, an array of two-element arrays: an order number, given
//! as a bare number or a numeric string, and an amount, given as a string
//! holding a decimal numeral). Single quotes open and close strings exactly
//! as double quotes do; whitespace between tokens is insignificant; strings
//! carry no escapes, so a backslash or a quote cannot occur inside one. An
//! unknown field, a malformed number, a negative amount, or a missing or
//! empty receipt address fails the whole decode. When a field repeats, its
//! last occurrence wins.
//!
//! The decoder is defined by the `spec` functions below; the executable
//! functions return exactly what those say.

use vstd::prelude::*;

use crate::decimal::{Decimal, ATTO_PER_UNIT};
use crate::errors::ParseError;
use crate::text::{dec_digits, dec_digits_padded, digit_char};

verus! {

/// The largest whole-unit count whose atto-unit value fits `i128`.
pub const MAX_UNITS: i128 = 170_141_183_460_469_231_731;

/// Whitespace between tokens.
pub open spec fn is_ws(c: char) -> bool {
    c == ' ' || c == '\t' || c == '\n' || c == '\r'
}

/// Either quote character: a single quote reads exactly as a double quote.
pub open spec fn is_quote(c: char) -> bool {
    c == '"' || c == '\''
}

pub open spec fn is_digit(c: char) -> bool {
    '0' <= c && c <= '9'
}

pub open spec fn digit_val(c: char) -> int {
    c as int - '0' as int
}

/// 10 to the `n`th power.
pub open spec fn pow10(n: int) -> int
    decreases n,
{
    if n <= 0 {
        1
    } else {
        10 * pow10(n - 1)
    }
}

/// The first index at or after `i` holding a non-whitespace character.
pub open spec fn skip_ws(s: Seq<char>, i: int) -> int
    decreases s.len() - i,
{
    if 0 <= i < s.len() && is_ws(s[i]) {
        skip_ws(s, i + 1)
    } else {
        i
    }
}

pub proof fn lemma_skip_ws_bounds(s: Seq<char>, i: int)
    requires
        0 <= i <= s.len(),
    ensures
        i <= skip_ws(s, i) <= s.len(),
    decreases s.len() - i,
{
    if i < s.len() && is_ws(s[i]) {
        lemma_skip_ws_bounds(s, i + 1);
    }
}

/// The body of a string literal: everything up to the closing quote, with
/// no escapes allowed.
pub open spec fn parse_str_body(s: Seq<char>, i: int) -> Result<(Seq<char>, int), ParseError>
    decreases s.len() - i,
{
    if i < 0 || i >= s.len() {
        Err(ParseError::UnexpectedEnd)
    } else if is_quote(s[i]) {
        Ok((Seq::<char>::empty(), i + 1))
    } else if s[i] == '\\' {
        Err(ParseError::UnexpectedChar)
    } else {
        match parse_str_body(s, i + 1) {
            Ok((rest, j)) => Ok((seq![s[i]] + rest, j)),
            Err(e) => Err(e),
        }
    }
}

/// A string literal, expected to open at `i`.
pub open spec fn parse_string(s: Seq<char>, i: int) -> Result<(Seq<char>, int), ParseError> {
    if i < 0 || i >= s.len() {
        Err(ParseError::UnexpectedEnd)
    } else if !is_quote(s[i]) {
        Err(ParseError::UnexpectedChar)
    } else {
        parse_str_body(s, i + 1)
    }
}

pub proof fn lemma_parse_str_body_advances(s: Seq<char>, i: int)
    requires
        0 <= i,
    ensures
        match parse_str_body(s, i) {
            Ok(p) => i < p.1 <= s.len(),
            Err(_) => true,
        },
    decreases s.len() - i,
{
    if 0 <= i < s.len() && !is_quote(s[i]) && s[i] != '\\' {
        lemma_parse_str_body_advances(s, i + 1);
    }
}

/// A run of decimal digits accumulated left to right into `acc`, failing
/// once the value leaves `u64`'s range.
pub open spec fn scan_u64(s: Seq<char>, i: int, acc: int) -> Result<(int, int), ParseError>
    decreases s.len() - i,
{
    if 0 <= i < s.len() && is_digit(s[i]) {
        let acc2 = acc * 10 + digit_val(s[i]);
        if acc2 > u64::MAX {
            Err(ParseError::BadOrderId)
        } else {
            scan_u64(s, i + 1, acc2)
        }
    } else {
        Ok((acc, i))
    }
}

/// An unsigned integer, expected to start with a digit at `i`.
pub open spec fn parse_u64(s: Seq<char>, i: int) -> Result<(int, int), ParseError> {
    if i < 0 || i >= s.len() {
        Err(ParseError::UnexpectedEnd)
    } else if !is_digit(s[i]) {
        Err(ParseError::BadOrderId)
    } else {
        scan_u64(s, i, 0)
    }
}

pub proof fn lemma_scan_u64_bounds(s: Seq<char>, i: int, acc: int)
    requires
        0 <= i <= s.len(),
        0 <= acc <= u64::MAX,
    ensures
        match scan_u64(s, i, acc) {
            Ok(p) => i <= p.1 <= s.len() && 0 <= p.0 <= u64::MAX,
            Err(_) => true,
        },
    decreases s.len() - i,
{
    if i < s.len() && is_digit(s[i]) {
        let acc2 = acc * 10 + digit_val(s[i]);
        if acc2 <= u64::MAX {
            lemma_scan_u64_bounds(s, i + 1, acc2);
        }
    }
}

pub proof fn lemma_parse_u64_advances(s: Seq<char>, i: int)
    requires
        0 <= i,
    ensures
        match parse_u64(s, i) {
            Ok(p) => i < p.1 <= s.len() && 0 <= p.0 <= u64::MAX,
            Err(_) => true,
        },
{
    if 0 <= i < s.len() && is_digit(s[i]) {
        lemma_scan_u64_bounds(s, i + 1, digit_val(s[i]));
    }
}

/// A run of digits read as whole units, failing once the count of units
/// could not be represented in atto-units.
pub open spec fn scan_units(t: Seq<char>, i: int, acc: int) -> Result<(int, int), ParseError>
    decreases t.len() - i,
{
    if 0 <= i < t.len() && is_digit(t[i]) {
        let acc2 = acc * 10 + digit_val(t[i]);
        if acc2 > MAX_UNITS {
            Err(ParseError::BadAmount)
        } else {
            scan_units(t, i + 1, acc2)
        }
    } else {
        Ok((acc, i))
    }
}

/// Up to 18 fractional digits running to the end of the numeral, read as
/// atto-units.
pub open spec fn scan_frac(t: Seq<char>, i: int, acc: int, count: int) -> Result<int, ParseError>
    decreases t.len() - i,
{
    if i >= t.len() {
        Ok(acc * pow10(18 - count))
    } else if !is_digit(t[i]) || i < 0 {
        Err(ParseError::BadAmount)
    } else if count >= 18 {
        Err(ParseError::BadAmount)
    } else {
        scan_frac(t, i + 1, acc * 10 + digit_val(t[i]), count + 1)
    }
}

/// The magnitude of a decimal numeral running from `i` to the end of `t`:
/// whole units, optionally followed by a point and 1 to 18 fractional
/// digits.
pub open spec fn parse_dec_mag(t: Seq<char>, i: int) -> Result<int, ParseError> {
    if i < 0 || i >= t.len() || !is_digit(t[i]) {
        Err(ParseError::BadAmount)
    } else {
        match scan_units(t, i, 0) {
            Err(e) => Err(e),
            Ok((units, j)) => if j == t.len() {
                Ok(units * ATTO_PER_UNIT)
            } else if t[j] == '.' {
                if j + 1 >= t.len() || !is_digit(t[j + 1]) {
                    Err(ParseError::BadAmount)
                } else {
                    match scan_frac(t, j + 1, 0, 0) {
                        Err(e) => Err(e),
                        Ok(f) => {
                            let v = units * ATTO_PER_UNIT + f;
                            if v > i128::MAX {
                                Err(ParseError::BadAmount)
                            } else {
                                Ok(v)
                            }
                        },
                    }
                }
            } else {
                Err(ParseError::BadAmount)
            },
        }
    }
}

/// A whole decimal numeral: an optional minus sign, then a magnitude,
/// consuming all of `t`.
pub open spec fn parse_decimal(t: Seq<char>) -> Result<int, ParseError> {
    if t.len() > 0 && t[0] == '-' {
        match parse_dec_mag(t, 1) {
            Ok(v) => Ok(-v),
            Err(e) => Err(e),
        }
    } else {
        parse_dec_mag(t, 0)
    }
}

/// The field naming a receipt series.
pub open spec fn receipt_key() -> Seq<char> {
    "pair_receipt_address"@
}

/// The field holding the per-order rewards.
pub open spec fn rewards_key() -> Seq<char> {
    "pair_rewards"@
}

/// An order number: a bare number, or a string holding only digits.
pub open spec fn parse_order_id(s: Seq<char>, i: int) -> Result<(int, int), ParseError> {
    if i < 0 || i >= s.len() {
        Err(ParseError::UnexpectedEnd)
    } else if is_quote(s[i]) {
        match parse_str_body(s, i + 1) {
            Ok((content, j)) => match parse_u64(content, 0) {
                Ok((v, k)) => if k == content.len() {
                    Ok((v, j))
                } else {
                    Err(ParseError::BadOrderId)
                },
                Err(_) => Err(ParseError::BadOrderId),
            },
            Err(e) => Err(e),
        }
    } else {
        parse_u64(s, i)
    }
}

pub proof fn lemma_parse_order_id_advances(s: Seq<char>, i: int)
    requires
        0 <= i,
    ensures
        match parse_order_id(s, i) {
            Ok(p) => i < p.1 <= s.len() && 0 <= p.0 <= u64::MAX,
            Err(_) => true,
        },
{
    if 0 <= i < s.len() {
        if is_quote(s[i]) {
            lemma_parse_str_body_advances(s, i + 1);
            match parse_str_body(s, i + 1) {
                Ok((content, _)) => {
                    lemma_parse_u64_advances(content, 0);
                },
                Err(_) => {},
            }
        } else {
            lemma_parse_u64_advances(s, i);
        }
    }
}

/// An order amount: a string holding a nonnegative decimal numeral.
pub open spec fn parse_amount(s: Seq<char>, i: int) -> Result<(int, int), ParseError> {
    if i < 0 || i >= s.len() {
        Err(ParseError::UnexpectedEnd)
    } else if !is_quote(s[i]) {
        Err(ParseError::BadAmount)
    } else {
        match parse_str_body(s, i + 1) {
            Ok((content, j)) => match parse_decimal(content) {
                Ok(v) => if v < 0 {
                    Err(ParseError::NegativeAmount)
                } else {
                    Ok((v, j))
                },
                Err(e) => Err(e),
            },
            Err(e) => Err(e),
        }
    }
}

pub proof fn lemma_parse_amount_advances(s: Seq<char>, i: int)
    requires
        0 <= i,
    ensures
        match parse_amount(s, i) {
            Ok(p) => i < p.1 <= s.len() && 0 <= p.0 <= i128::MAX,
            Err(_) => true,
        },
{
    if 0 <= i < s.len() && is_quote(s[i]) {
        lemma_parse_str_body_advances(s, i + 1);
        match parse_str_body(s, i + 1) {
            Ok((content, _)) => {
                lemma_parse_decimal_range(content);
            },
            Err(_) => {},
        }
    }
}

pub proof fn lemma_scan_units_bounds(t: Seq<char>, i: int, acc: int)
    requires
        0 <= i <= t.len(),
        0 <= acc <= MAX_UNITS,
    ensures
        match scan_units(t, i, acc) {
            Ok(p) => i <= p.1 <= t.len() && 0 <= p.0 <= MAX_UNITS,
            Err(_) => true,
        },
    decreases t.len() - i,
{
    if i < t.len() && is_digit(t[i]) {
        let acc2 = acc * 10 + digit_val(t[i]);
        if acc2 <= MAX_UNITS {
            lemma_scan_units_bounds(t, i + 1, acc2);
        }
    }
}

pub proof fn lemma_scan_frac_range(t: Seq<char>, i: int, acc: int, count: int)
    requires
        0 <= i <= t.len(),
        0 <= count <= 18,
        0 <= acc < pow10(count),
    ensures
        match scan_frac(t, i, acc, count) {
            Ok(f) => 0 <= f < ATTO_PER_UNIT,
            Err(_) => true,
        },
    decreases t.len() - i,
{
    lemma_pow10_pos(18 - count);
    lemma_pow10_mono(count, 18);
    if i >= t.len() {
        lemma_pow10_mul(count, 18 - count);
        lemma_pow10_18();
        assert(0 <= acc * pow10(18 - count) < pow10(count) * pow10(18 - count))
            by (nonlinear_arith)
            requires
                0 <= acc < pow10(count),
                pow10(18 - count) >= 1,
        ;
    } else if is_digit(t[i]) && count < 18 {
        lemma_scan_frac_range(t, i + 1, acc * 10 + digit_val(t[i]), count + 1);
    }
}

/// Eighteen decimal digits cover exactly one whole unit of atto-units.
pub proof fn lemma_pow10_18()
    ensures
        pow10(18) == ATTO_PER_UNIT,
{
    reveal_with_fuel(pow10, 20);
}

pub proof fn lemma_pow10_pos(n: int)
    ensures
        pow10(n) >= 1,
    decreases n,
{
    if n > 0 {
        lemma_pow10_pos(n - 1);
    }
}

pub proof fn lemma_pow10_mono(a: int, b: int)
    requires
        a <= b,
    ensures
        pow10(a) <= pow10(b),
    decreases b - a,
{
    lemma_pow10_pos(a);
    if a < b {
        lemma_pow10_mono(a, b - 1);
        lemma_pow10_pos(b - 1);
    }
}

pub proof fn lemma_pow10_mul(a: int, b: int)
    requires
        a >= 0,
        b >= 0,
    ensures
        pow10(a) * pow10(b) == pow10(a + b),
    decreases a,
{
    if a > 0 {
        lemma_pow10_mul(a - 1, b);
        assert(pow10(a) * pow10(b) == 10 * (pow10(a - 1) * pow10(b)))
            by (nonlinear_arith)
            requires
                pow10(a) == 10 * pow10(a - 1),
        ;
    }
}

/// The value a decimal numeral denotes is representable.
pub proof fn lemma_parse_decimal_range(t: Seq<char>)
    ensures
        match parse_decimal(t) {
            Ok(v) => i128::MIN < v <= i128::MAX,
            Err(_) => true,
        },
{
    lemma_parse_dec_mag_range(t, 0);
    lemma_parse_dec_mag_range(t, 1);
}

pub proof fn lemma_parse_dec_mag_range(t: Seq<char>, i: int)
    ensures
        match parse_dec_mag(t, i) {
            Ok(v) => 0 <= v <= i128::MAX,
            Err(_) => true,
        },
{
    if 0 <= i < t.len() && is_digit(t[i]) {
        lemma_scan_units_bounds(t, i, 0);
        match scan_units(t, i, 0) {
            Ok((units, j)) => {
                assert(units * ATTO_PER_UNIT <= MAX_UNITS * ATTO_PER_UNIT) by (nonlinear_arith)
                    requires
                        0 <= units <= MAX_UNITS,
                ;
                assert(units * ATTO_PER_UNIT >= 0) by (nonlinear_arith)
                    requires
                        units >= 0,
                ;
                if j < t.len() && t[j] == '.' && j + 1 < t.len() && is_digit(t[j + 1]) {
                    lemma_scan_frac_range(t, j + 1, 0, 0);
                }
            },
            Err(_) => {},
        }
    }
}

/// One reward entry: `[` order number `,` amount string `]`.
pub open spec fn parse_entry(s: Seq<char>, i: int) -> Result<((int, int), int), ParseError> {
    if i < 0 || i >= s.len() {
        Err(ParseError::UnexpectedEnd)
    } else if s[i] != '[' {
        Err(ParseError::RewardsNotAnArray)
    } else {
        let j1 = skip_ws(s, i + 1);
        match parse_order_id(s, j1) {
            Err(e) => Err(e),
            Ok((id, j2)) => {
                let j3 = skip_ws(s, j2);
                if j3 >= s.len() {
                    Err(ParseError::UnexpectedEnd)
                } else if s[j3] != ',' {
                    Err(ParseError::UnexpectedChar)
                } else {
                    let j4 = skip_ws(s, j3 + 1);
                    match parse_amount(s, j4) {
                        Err(e) => Err(e),
                        Ok((v, j5)) => {
                            let j6 = skip_ws(s, j5);
                            if j6 >= s.len() {
                                Err(ParseError::UnexpectedEnd)
                            } else if s[j6] != ']' {
                                Err(ParseError::UnexpectedChar)
                            } else {
                                Ok(((id, v), j6 + 1))
                            }
                        },
                    }
                }
            },
        }
    }
}

pub proof fn lemma_parse_entry_advances(s: Seq<char>, i: int)
    requires
        0 <= i,
    ensures
        match parse_entry(s, i) {
            Ok(p) => i < p.1 <= s.len() && 0 <= p.0.0 <= u64::MAX && 0 <= p.0.1 <= i128::MAX,
            Err(_) => true,
        },
{
    if 0 <= i < s.len() && s[i] == '[' {
        lemma_skip_ws_bounds(s, i + 1);
        let j1 = skip_ws(s, i + 1);
        lemma_parse_order_id_advances(s, j1);
        match parse_order_id(s, j1) {
            Ok((_, j2)) => {
                lemma_skip_ws_bounds(s, j2);
                let j3 = skip_ws(s, j2);
                if j3 < s.len() && s[j3] == ',' {
                    lemma_skip_ws_bounds(s, j3 + 1);
                    let j4 = skip_ws(s, j3 + 1);
                    lemma_parse_amount_advances(s, j4);
                    match parse_amount(s, j4) {
                        Ok((_, j5)) => {
                            lemma_skip_ws_bounds(s, j5);
                        },
                        Err(_) => {},
                    }
                }
            },
            Err(_) => {},
        }
    }
}

/// The entries of a rewards array, expected right after its `[`.
pub open spec fn parse_entries(s: Seq<char>, i: int) -> Result<(Seq<(int, int)>, int), ParseError> {
    if i < 0 {
        Err(ParseError::UnexpectedChar)
    } else {
        let j = skip_ws(s, i);
        if j >= s.len() {
            Err(ParseError::UnexpectedEnd)
        } else if s[j] == ']' {
            Ok((Seq::<(int, int)>::empty(), j + 1))
        } else {
            match parse_entry(s, j) {
                Err(e) => Err(e),
                Ok((e0, j2)) => parse_more_entries(s, j2, seq![e0]),
            }
        }
    }
}

/// The remaining entries of a rewards array, after at least one was read.
pub open spec fn parse_more_entries(s: Seq<char>, i: int, acc: Seq<(int, int)>) -> Result<
    (Seq<(int, int)>, int),
    ParseError,
>
    decreases s.len() - i,
    via parse_more_entries_dec
{
    if i < 0 {
        Err(ParseError::UnexpectedChar)
    } else {
        let j = skip_ws(s, i);
        if j >= s.len() {
            Err(ParseError::UnexpectedEnd)
        } else if s[j] == ']' {
            Ok((acc, j + 1))
        } else if s[j] != ',' {
            Err(ParseError::UnexpectedChar)
        } else {
            let j2 = skip_ws(s, j + 1);
            match parse_entry(s, j2) {
                Err(e) => Err(e),
                Ok((e0, j3)) => parse_more_entries(s, j3, acc.push(e0)),
            }
        }
    }
}

#[via_fn]
proof fn parse_more_entries_dec(s: Seq<char>, i: int, acc: Seq<(int, int)>) {
    if 0 <= i <= s.len() {
        lemma_skip_ws_bounds(s, i);
        let j = skip_ws(s, i);
        if j < s.len() && s[j] != ']' && s[j] == ',' {
            lemma_skip_ws_bounds(s, j + 1);
            lemma_parse_entry_advances(s, skip_ws(s, j + 1));
        }
    }
}

pub proof fn lemma_parse_entries_advances(s: Seq<char>, i: int)
    requires
        0 <= i <= s.len(),
    ensures
        match parse_entries(s, i) {
            Ok(p) => i < p.1 <= s.len(),
            Err(_) => true,
        },
{
    lemma_skip_ws_bounds(s, i);
    let j = skip_ws(s, i);
    if j < s.len() && s[j] != ']' {
        lemma_parse_entry_advances(s, j);
        match parse_entry(s, j) {
            Ok((e0, j2)) => {
                lemma_parse_more_entries_advances(s, j2, seq![e0]);
            },
            Err(_) => {},
        }
    }
}

pub proof fn lemma_parse_more_entries_advances(s: Seq<char>, i: int, acc: Seq<(int, int)>)
    requires
        0 <= i <= s.len(),
    ensures
        match parse_more_entries(s, i, acc) {
            Ok(p) => i < p.1 <= s.len(),
            Err(_) => true,
        },
    decreases s.len() - i,
{
    lemma_skip_ws_bounds(s, i);
    let j = skip_ws(s, i);
    if j < s.len() && s[j] != ']' && s[j] == ',' {
        lemma_skip_ws_bounds(s, j + 1);
        let j2 = skip_ws(s, j + 1);
        lemma_parse_entry_advances(s, j2);
        match parse_entry(s, j2) {
            Ok((e0, j3)) => {
                lemma_parse_more_entries_advances(s, j3, acc.push(e0));
            },
            Err(_) => {},
        }
    }
}

/// One object field: a key string, a colon, and the value the key calls
/// for. Carries the receipt and rewards seen so far; a repeated field's
/// last occurrence wins.
pub open spec fn parse_field(
    s: Seq<char>,
    i: int,
    receipt: Option<Seq<char>>,
    rewards: Seq<(int, int)>,
) -> Result<((Option<Seq<char>>, Seq<(int, int)>), int), ParseError> {
    if i < 0 || i >= s.len() {
        Err(ParseError::UnexpectedEnd)
    } else if !is_quote(s[i]) {
        Err(ParseError::UnexpectedChar)
    } else {
        match parse_str_body(s, i + 1) {
            Err(e) => Err(e),
            Ok((key, j)) => {
                let j2 = skip_ws(s, j);
                if j2 >= s.len() {
                    Err(ParseError::UnexpectedEnd)
                } else if s[j2] != ':' {
                    Err(ParseError::UnexpectedChar)
                } else {
                    let j3 = skip_ws(s, j2 + 1);
                    if key == receipt_key() {
                        if j3 >= s.len() {
                            Err(ParseError::UnexpectedEnd)
                        } else if !is_quote(s[j3]) {
                            Err(ParseError::ReceiptNotAString)
                        } else {
                            match parse_str_body(s, j3 + 1) {
                                Err(e) => Err(e),
                                Ok((v, j4)) => Ok(((Some(v), rewards), j4)),
                            }
                        }
                    } else if key == rewards_key() {
                        if j3 >= s.len() {
                            Err(ParseError::UnexpectedEnd)
                        } else if s[j3] != '[' {
                            Err(ParseError::RewardsNotAnArray)
                        } else {
                            match parse_entries(s, j3 + 1) {
                                Err(e) => Err(e),
                                Ok((es, j4)) => Ok(((receipt, es), j4)),
                            }
                        }
                    } else {
                        Err(ParseError::UnknownField)
                    }
                }
            },
        }
    }
}

pub proof fn lemma_parse_field_advances(
    s: Seq<char>,
    i: int,
    receipt: Option<Seq<char>>,
    rewards: Seq<(int, int)>,
)
    requires
        0 <= i,
    ensures
        match parse_field(s, i, receipt, rewards) {
            Ok(p) => i < p.1 <= s.len(),
            Err(_) => true,
        },
{
    if 0 <= i < s.len() && is_quote(s[i]) {
        lemma_parse_str_body_advances(s, i + 1);
        match parse_str_body(s, i + 1) {
            Ok((key, j)) => {
                lemma_skip_ws_bounds(s, j);
                let j2 = skip_ws(s, j);
                if j2 < s.len() && s[j2] == ':' {
                    lemma_skip_ws_bounds(s, j2 + 1);
                    let j3 = skip_ws(s, j2 + 1);
                    if key == receipt_key() {
                        if j3 < s.len() && is_quote(s[j3]) {
                            lemma_parse_str_body_advances(s, j3 + 1);
                        }
                    } else if key == rewards_key() {
                        if j3 < s.len() && s[j3] == '[' {
                            lemma_parse_entries_advances(s, j3 + 1);
                        }
                    }
                }
            },
            Err(_) => {},
        }
    }
}

/// The remaining fields of one object, after at least one was read. The
/// closing brace requires a non-empty receipt address to have been seen.
pub open spec fn parse_pair_fields(
    s: Seq<char>,
    i: int,
    receipt: Option<Seq<char>>,
    rewards: Seq<(int, int)>,
) -> Result<((Seq<char>, Seq<(int, int)>), int), ParseError>
    decreases s.len() - i,
    via parse_pair_fields_dec
{
    if i < 0 {
        Err(ParseError::UnexpectedChar)
    } else {
        let j = skip_ws(s, i);
        if j >= s.len() {
            Err(ParseError::UnexpectedEnd)
        } else if s[j] == '}' {
            match receipt {
                Some(r) => if r.len() == 0 {
                    Err(ParseError::MissingReceipt)
                } else {
                    Ok(((r, rewards), j + 1))
                },
                None => Err(ParseError::MissingReceipt),
            }
        } else if s[j] != ',' {
            Err(ParseError::UnexpectedChar)
        } else {
            let j2 = skip_ws(s, j + 1);
            match parse_field(s, j2, receipt, rewards) {
                Err(e) => Err(e),
                Ok(((r2, rw2), j3)) => parse_pair_fields(s, j3, r2, rw2),
            }
        }
    }
}

#[via_fn]
proof fn parse_pair_fields_dec(
    s: Seq<char>,
    i: int,
    receipt: Option<Seq<char>>,
    rewards: Seq<(int, int)>,
) {
    if 0 <= i <= s.len() {
        lemma_skip_ws_bounds(s, i);
        let j = skip_ws(s, i);
        if j < s.len() && s[j] != '}' && s[j] == ',' {
            lemma_skip_ws_bounds(s, j + 1);
            lemma_parse_field_advances(s, skip_ws(s, j + 1), receipt, rewards);
        }
    }
}

pub proof fn lemma_parse_pair_fields_advances(
    s: Seq<char>,
    i: int,
    receipt: Option<Seq<char>>,
    rewards: Seq<(int, int)>,
)
    requires
        0 <= i <= s.len(),
    ensures
        match parse_pair_fields(s, i, receipt, rewards) {
            Ok(p) => i < p.1 <= s.len(),
            Err(_) => true,
        },
    decreases s.len() - i,
{
    lemma_skip_ws_bounds(s, i);
    let j = skip_ws(s, i);
    if j < s.len() && s[j] != '}' && s[j] == ',' {
        lemma_skip_ws_bounds(s, j + 1);
        let j2 = skip_ws(s, j + 1);
        lemma_parse_field_advances(s, j2, receipt, rewards);
        match parse_field(s, j2, receipt, rewards) {
            Ok(((r2, rw2), j3)) => {
                lemma_parse_pair_fields_advances(s, j3, r2, rw2);
            },
            Err(_) => {},
        }
    }
}

/// One batch element: an object holding a receipt address and its rewards.
pub open spec fn parse_pair(s: Seq<char>, i: int) -> Result<
    ((Seq<char>, Seq<(int, int)>), int),
    ParseError,
> {
    if i < 0 || i >= s.len() {
        Err(ParseError::UnexpectedEnd)
    } else if s[i] != '{' {
        Err(ParseError::PairNotAnObject)
    } else {
        let j = skip_ws(s, i + 1);
        if j >= s.len() {
            Err(ParseError::UnexpectedEnd)
        } else if s[j] == '}' {
            Err(ParseError::MissingReceipt)
        } else {
            match parse_field(s, j, None, Seq::<(int, int)>::empty()) {
                Err(e) => Err(e),
                Ok(((r, rw), j2)) => parse_pair_fields(s, j2, r, rw),
            }
        }
    }
}

pub proof fn lemma_parse_pair_advances(s: Seq<char>, i: int)
    requires
        0 <= i,
    ensures
        match parse_pair(s, i) {
            Ok(p) => i < p.1 <= s.len(),
            Err(_) => true,
        },
{
    if 0 <= i < s.len() && s[i] == '{' {
        lemma_skip_ws_bounds(s, i + 1);
        let j = skip_ws(s, i + 1);
        if j < s.len() && s[j] != '}' {
            lemma_parse_field_advances(s, j, None, Seq::<(int, int)>::empty());
            match parse_field(s, j, None, Seq::<(int, int)>::empty()) {
                Ok(((r, rw), j2)) => {
                    lemma_parse_pair_fields_advances(s, j2, r, rw);
                },
                Err(_) => {},
            }
        }
    }
}

/// The elements of the batch array, expected right after its `[`.
pub open spec fn parse_pairs(s: Seq<char>, i: int) -> Result<
    (Seq<(Seq<char>, Seq<(int, int)>)>, int),
    ParseError,
> {
    if i < 0 {
        Err(ParseError::UnexpectedChar)
    } else {
        let j = skip_ws(s, i);
        if j >= s.len() {
            Err(ParseError::UnexpectedEnd)
        } else if s[j] == ']' {
            Ok((Seq::<(Seq<char>, Seq<(int, int)>)>::empty(), j + 1))
        } else {
            match parse_pair(s, j) {
                Err(e) => Err(e),
                Ok((p0, j2)) => parse_more_pairs(s, j2, seq![p0]),
            }
        }
    }
}

/// The remaining elements of the batch array, after at least one was read.
pub open spec fn parse_more_pairs(
    s: Seq<char>,
    i: int,
    acc: Seq<(Seq<char>, Seq<(int, int)>)>,
) -> Result<(Seq<(Seq<char>, Seq<(int, int)>)>, int), ParseError>
    decreases s.len() - i,
    via parse_more_pairs_dec
{
    if i < 0 {
        Err(ParseError::UnexpectedChar)
    } else {
        let j = skip_ws(s, i);
        if j >= s.len() {
            Err(ParseError::UnexpectedEnd)
        } else if s[j] == ']' {
            Ok((acc, j + 1))
        } else if s[j] != ',' {
            Err(ParseError::UnexpectedChar)
        } else {
            let j2 = skip_ws(s, j + 1);
            match parse_pair(s, j2) {
                Err(e) => Err(e),
                Ok((p0, j3)) => parse_more_pairs(s, j3, acc.push(p0)),
            }
        }
    }
}

#[via_fn]
proof fn parse_more_pairs_dec(s: Seq<char>, i: int, acc: Seq<(Seq<char>, Seq<(int, int)>)>) {
    if 0 <= i <= s.len() {
        lemma_skip_ws_bounds(s, i);
        let j = skip_ws(s, i);
        if j < s.len() && s[j] != ']' && s[j] == ',' {
            lemma_skip_ws_bounds(s, j + 1);
            lemma_parse_pair_advances(s, skip_ws(s, j + 1));
        }
    }
}

pub proof fn lemma_parse_more_pairs_advances(
    s: Seq<char>,
    i: int,
    acc: Seq<(Seq<char>, Seq<(int, int)>)>,
)
    requires
        0 <= i <= s.len(),
    ensures
        match parse_more_pairs(s, i, acc) {
            Ok(p) => i < p.1 <= s.len(),
            Err(_) => true,
        },
    decreases s.len() - i,
{
    lemma_skip_ws_bounds(s, i);
    let j = skip_ws(s, i);
    if j < s.len() && s[j] != ']' && s[j] == ',' {
        lemma_skip_ws_bounds(s, j + 1);
        let j2 = skip_ws(s, j + 1);
        lemma_parse_pair_advances(s, j2);
        match parse_pair(s, j2) {
            Ok((p0, j3)) => {
                lemma_parse_more_pairs_advances(s, j3, acc.push(p0));
            },
            Err(_) => {},
        }
    }
}

/// A whole batch text: one array, nothing but whitespace after it.
pub open spec fn parse_orders_batch_text(s: Seq<char>) -> Result<
    Seq<(Seq<char>, Seq<(int, int)>)>,
    ParseError,
> {
    let i = skip_ws(s, 0);
    if i >= s.len() {
        Err(ParseError::UnexpectedEnd)
    } else if s[i] != '[' {
        Err(ParseError::NotAnArray)
    } else {
        match parse_pairs(s, i + 1) {
            Err(e) => Err(e),
            Ok((ps, j)) => {
                let k = skip_ws(s, j);
                if k == s.len() {
                    Ok(ps)
                } else {
                    Err(ParseError::TrailingText)
                }
            },
        }
    }
}

/// Reward entries, as specifications read a decoded list.
pub open spec fn entry_list_view(v: Seq<(u64, Decimal)>) -> Seq<(int, int)> {
    v.map_values(|e: (u64, Decimal)| (e.0 as int, e.1@))
}

/// A decoded batch, as specifications read it.
pub open spec fn batch_text_view(b: Seq<crate::orders::JsonPairOrderRewards>) -> Seq<
    (Seq<char>, Seq<(int, int)>),
> {
    b.map_values(
        |p: crate::orders::JsonPairOrderRewards|
            (p.pair_receipt_address@, entry_list_view(p.pair_rewards@)),
    )
}

fn is_ws_exec(c: char) -> (r: bool)
    ensures
        r == is_ws(c),
{
    c == ' ' || c == '\t' || c == '\n' || c == '\r'
}

fn is_quote_exec(c: char) -> (r: bool)
    ensures
        r == is_quote(c),
{
    c == '"' || c == '\''
}

fn is_digit_exec(c: char) -> (r: bool)
    ensures
        r == is_digit(c),
{
    '0' <= c && c <= '9'
}

fn skip_ws_exec(s: &Vec<char>, i: usize) -> (r: usize)
    requires
        i <= s@.len(),
    ensures
        r as int == skip_ws(s@, i as int),
        i <= r <= s@.len(),
    decreases s@.len() - i,
{
    if i < s.len() && is_ws_exec(s[i]) {
        skip_ws_exec(s, i + 1)
    } else {
        i
    }
}

fn parse_str_body_exec(s: &Vec<char>, i: usize) -> (r: Result<(Vec<char>, usize), ParseError>)
    requires
        i <= s@.len(),
    ensures
        match r {
            Ok(p) => parse_str_body(s@, i as int) == Ok::<_, ParseError>((p.0@, p.1 as int)) && i
                < p.1 <= s@.len(),
            Err(e) => parse_str_body(s@, i as int) == Err::<(Seq<char>, int), _>(e),
        },
    decreases s@.len() - i,
{
    if i >= s.len() {
        Err(ParseError::UnexpectedEnd)
    } else if is_quote_exec(s[i]) {
        let content: Vec<char> = Vec::new();
        proof {
            assert(content@ =~= Seq::<char>::empty());
        }
        Ok((content, i + 1))
    } else if s[i] == '\\' {
        Err(ParseError::UnexpectedChar)
    } else {
        match parse_str_body_exec(s, i + 1) {
            Ok((mut rest, j)) => {
                let ghost orv = rest@;
                rest.insert(0, s[i]);
                proof {
                    assert(rest@ =~= seq![s@[i as int]] + orv);
                }
                Ok((rest, j))
            },
            Err(e) => Err(e),
        }
    }
}

fn scan_u64_exec(s: &Vec<char>, i: usize, acc: u64) -> (r: Result<(u64, usize), ParseError>)
    requires
        i <= s@.len(),
    ensures
        match r {
            Ok(p) => scan_u64(s@, i as int, acc as int) == Ok::<_, ParseError>(
                (p.0 as int, p.1 as int),
            ) && i <= p.1 <= s@.len(),
            Err(e) => scan_u64(s@, i as int, acc as int) == Err::<(int, int), _>(e),
        },
    decreases s@.len() - i,
{
    if i < s.len() && is_digit_exec(s[i]) {
        let d: u64 = (s[i] as u32 - '0' as u32) as u64;
        proof {
            assert(d as int == digit_val(s@[i as int]));
        }
        let wide: u128 = (acc as u128) * 10 + (d as u128);
        if wide > u64::MAX as u128 {
            Err(ParseError::BadOrderId)
        } else {
            scan_u64_exec(s, i + 1, wide as u64)
        }
    } else {
        Ok((acc, i))
    }
}

fn parse_u64_exec(s: &Vec<char>, i: usize) -> (r: Result<(u64, usize), ParseError>)
    requires
        i <= s@.len(),
    ensures
        match r {
            Ok(p) => parse_u64(s@, i as int) == Ok::<_, ParseError>((p.0 as int, p.1 as int)) && i
                < p.1 <= s@.len(),
            Err(e) => parse_u64(s@, i as int) == Err::<(int, int), _>(e),
        },
{
    if i >= s.len() {
        Err(ParseError::UnexpectedEnd)
    } else if !is_digit_exec(s[i]) {
        Err(ParseError::BadOrderId)
    } else {
        proof {
            lemma_parse_u64_advances(s@, i as int);
        }
        scan_u64_exec(s, i, 0)
    }
}

fn scan_units_exec(t: &Vec<char>, i: usize, acc: i128) -> (r: Result<(i128, usize), ParseError>)
    requires
        i <= t@.len(),
        0 <= acc <= MAX_UNITS,
    ensures
        match r {
            Ok(p) => scan_units(t@, i as int, acc as int) == Ok::<_, ParseError>(
                (p.0 as int, p.1 as int),
            ) && i <= p.1 <= t@.len() && 0 <= p.0 <= MAX_UNITS,
            Err(e) => scan_units(t@, i as int, acc as int) == Err::<(int, int), _>(e),
        },
    decreases t@.len() - i,
{
    if i < t.len() && is_digit_exec(t[i]) {
        let d: i128 = (t[i] as u32 - '0' as u32) as i128;
        proof {
            assert(d as int == digit_val(t@[i as int]));
        }
        let acc2: i128 = acc * 10 + d;
        if acc2 > MAX_UNITS {
            Err(ParseError::BadAmount)
        } else {
            scan_units_exec(t, i + 1, acc2)
        }
    } else {
        Ok((acc, i))
    }
}

fn pow10_exec(n: usize) -> (r: i128)
    requires
        n <= 18,
    ensures
        r as int == pow10(n as int),
        1 <= r <= ATTO_PER_UNIT,
{
    let mut r: i128 = 1;
    let mut k: usize = 0;
    proof {
        lemma_pow10_18();
    }
    while k < n
        invariant
            k <= n <= 18,
            r as int == pow10(k as int),
            1 <= r,
            pow10(18) == ATTO_PER_UNIT,
        decreases n - k,
    {
        proof {
            lemma_pow10_mono(k + 1, 18);
            lemma_pow10_pos(k as int);
        }
        r = r * 10;
        k = k + 1;
    }
    proof {
        lemma_pow10_mono(n as int, 18);
    }
    r
}

fn scan_frac_exec(t: &Vec<char>, i: usize, acc: i128, count: usize) -> (r: Result<
    i128,
    ParseError,
>)
    requires
        i <= t@.len(),
        count <= 18,
        0 <= acc < pow10(count as int),
    ensures
        match r {
            Ok(f) => scan_frac(t@, i as int, acc as int, count as int) == Ok::<_, ParseError>(
                f as int,
            ) && 0 <= f < ATTO_PER_UNIT,
            Err(e) => scan_frac(t@, i as int, acc as int, count as int) == Err::<int, _>(e),
        },
    decreases t@.len() - i,
{
    proof {
        lemma_pow10_18();
        lemma_pow10_mono(count as int, 18);
        lemma_pow10_pos(count as int);
    }
    if i >= t.len() {
        let p = pow10_exec(18 - count);
        proof {
            lemma_pow10_mul(count as int, 18 - count as int);
            assert(0 <= acc * (p as int) < pow10(count as int) * pow10(18 - count as int))
                by (nonlinear_arith)
                requires
                    0 <= acc < pow10(count as int),
                    1 <= p as int,
                    p as int == pow10(18 - count as int),
            ;
        }
        Ok(acc * p)
    } else if !is_digit_exec(t[i]) {
        Err(ParseError::BadAmount)
    } else if count >= 18 {
        Err(ParseError::BadAmount)
    } else {
        let d: i128 = (t[i] as u32 - '0' as u32) as i128;
        proof {
            assert(d as int == digit_val(t@[i as int]));
            lemma_pow10_mono(count as int + 1, 18);
        }
        scan_frac_exec(t, i + 1, acc * 10 + d, count + 1)
    }
}

fn parse_dec_mag_exec(t: &Vec<char>, i: usize) -> (r: Result<i128, ParseError>)
    requires
        i <= t@.len(),
    ensures
        match r {
            Ok(v) => parse_dec_mag(t@, i as int) == Ok::<_, ParseError>(v as int) && v >= 0,
            Err(e) => parse_dec_mag(t@, i as int) == Err::<int, _>(e),
        },
{
    if i >= t.len() || !is_digit_exec(t[i]) {
        Err(ParseError::BadAmount)
    } else {
        match scan_units_exec(t, i, 0) {
            Err(e) => Err(e),
            Ok((units, j)) => {
                proof {
                    assert(units * ATTO_PER_UNIT <= MAX_UNITS * ATTO_PER_UNIT
                        && units * ATTO_PER_UNIT >= 0) by (nonlinear_arith)
                        requires
                            0 <= units <= MAX_UNITS,
                    ;
                }
                if j == t.len() {
                    Ok(units * ATTO_PER_UNIT)
                } else if t[j] == '.' {
                    if j + 1 >= t.len() || !is_digit_exec(t[j + 1]) {
                        Err(ParseError::BadAmount)
                    } else {
                        proof {
                            assert(pow10(0) == 1);
                        }
                        match scan_frac_exec(t, j + 1, 0, 0) {
                            Err(e) => Err(e),
                            Ok(f) => {
                                let hi: i128 = units * ATTO_PER_UNIT;
                                match hi.checked_add(f) {
                                    None => Err(ParseError::BadAmount),
                                    Some(v) => Ok(v),
                                }
                            },
                        }
                    }
                } else {
                    Err(ParseError::BadAmount)
                }
            },
        }
    }
}

/// Decodes one decimal numeral held in `t`, whole.
pub fn parse_decimal_exec(t: &Vec<char>) -> (r: Result<Decimal, ParseError>)
    ensures
        match r {
            Ok(d) => parse_decimal(t@) == Ok::<_, ParseError>(d@),
            Err(e) => parse_decimal(t@) == Err::<int, _>(e),
        },
{
    if t.len() > 0 && t[0] == '-' {
        match parse_dec_mag_exec(t, 1) {
            Ok(v) => Ok(Decimal::from_atto(-v)),
            Err(e) => Err(e),
        }
    } else {
        match parse_dec_mag_exec(t, 0) {
            Ok(v) => Ok(Decimal::from_atto(v)),
            Err(e) => Err(e),
        }
    }
}

fn parse_order_id_exec(s: &Vec<char>, i: usize) -> (r: Result<(u64, usize), ParseError>)
    requires
        i <= s@.len(),
    ensures
        match r {
            Ok(p) => parse_order_id(s@, i as int) == Ok::<_, ParseError>((p.0 as int, p.1 as int))
                && i < p.1 <= s@.len(),
            Err(e) => parse_order_id(s@, i as int) == Err::<(int, int), _>(e),
        },
{
    proof {
        lemma_parse_order_id_advances(s@, i as int);
    }
    if i >= s.len() {
        Err(ParseError::UnexpectedEnd)
    } else if is_quote_exec(s[i]) {
        match parse_str_body_exec(s, i + 1) {
            Ok((content, j)) => match parse_u64_exec(&content, 0) {
                Ok((v, k)) => if k == content.len() {
                    Ok((v, j))
                } else {
                    Err(ParseError::BadOrderId)
                },
                Err(_) => Err(ParseError::BadOrderId),
            },
            Err(e) => Err(e),
        }
    } else {
        parse_u64_exec(s, i)
    }
}

fn parse_amount_exec(s: &Vec<char>, i: usize) -> (r: Result<(Decimal, usize), ParseError>)
    requires
        i <= s@.len(),
    ensures
        match r {
            Ok(p) => parse_amount(s@, i as int) == Ok::<_, ParseError>((p.0@, p.1 as int)) && i
                < p.1 <= s@.len() && p.0@ >= 0,
            Err(e) => parse_amount(s@, i as int) == Err::<(int, int), _>(e),
        },
{
    proof {
        lemma_parse_amount_advances(s@, i as int);
    }
    if i >= s.len() {
        Err(ParseError::UnexpectedEnd)
    } else if !is_quote_exec(s[i]) {
        Err(ParseError::BadAmount)
    } else {
        match parse_str_body_exec(s, i + 1) {
            Ok((content, j)) => match parse_decimal_exec(&content) {
                Ok(v) => if v.is_negative() {
                    Err(ParseError::NegativeAmount)
                } else {
                    Ok((v, j))
                },
                Err(e) => Err(e),
            },
            Err(e) => Err(e),
        }
    }
}

fn parse_entry_exec(s: &Vec<char>, i: usize) -> (r: Result<((u64, Decimal), usize), ParseError>)
    requires
        i <= s@.len(),
    ensures
        match r {
            Ok(p) => parse_entry(s@, i as int) == Ok::<_, ParseError>(
                ((p.0.0 as int, p.0.1@), p.1 as int),
            ) && i < p.1 <= s@.len() && p.0.1@ >= 0,
            Err(e) => parse_entry(s@, i as int) == Err::<((int, int), int), _>(e),
        },
{
    if i >= s.len() {
        Err(ParseError::UnexpectedEnd)
    } else if s[i] != '[' {
        Err(ParseError::RewardsNotAnArray)
    } else {
        let j1 = skip_ws_exec(s, i + 1);
        match parse_order_id_exec(s, j1) {
            Err(e) => Err(e),
            Ok((id, j2)) => {
                let j3 = skip_ws_exec(s, j2);
                if j3 >= s.len() {
                    Err(ParseError::UnexpectedEnd)
                } else if s[j3] != ',' {
                    Err(ParseError::UnexpectedChar)
                } else {
                    let j4 = skip_ws_exec(s, j3 + 1);
                    match parse_amount_exec(s, j4) {
                        Err(e) => Err(e),
                        Ok((v, j5)) => {
                            let j6 = skip_ws_exec(s, j5);
                            if j6 >= s.len() {
                                Err(ParseError::UnexpectedEnd)
                            } else if s[j6] != ']' {
                                Err(ParseError::UnexpectedChar)
                            } else {
                                Ok(((id, v), j6 + 1))
                            }
                        },
                    }
                }
            },
        }
    }
}

fn parse_more_entries_exec(s: &Vec<char>, i: usize, acc: Vec<(u64, Decimal)>) -> (r: Result<
    (Vec<(u64, Decimal)>, usize),
    ParseError,
>)
    requires
        i <= s@.len(),
        forall|a: int| 0 <= a < acc@.len() ==> #[trigger] acc@[a].1@ >= 0,
    ensures
        match r {
            Ok(p) => parse_more_entries(s@, i as int, entry_list_view(acc@)) == Ok::<
                _,
                ParseError,
            >((entry_list_view(p.0@), p.1 as int)) && i < p.1 <= s@.len() && (forall|a: int|
                0 <= a < p.0@.len() ==> #[trigger] p.0@[a].1@ >= 0),
            Err(e) => parse_more_entries(s@, i as int, entry_list_view(acc@)) == Err::<
                (Seq<(int, int)>, int),
                _,
            >(e),
        },
    decreases s@.len() - i,
{
    let j = skip_ws_exec(s, i);
    if j >= s.len() {
        Err(ParseError::UnexpectedEnd)
    } else if s[j] == ']' {
        Ok((acc, j + 1))
    } else if s[j] != ',' {
        Err(ParseError::UnexpectedChar)
    } else {
        let j2 = skip_ws_exec(s, j + 1);
        match parse_entry_exec(s, j2) {
            Err(e) => Err(e),
            Ok((e0, j3)) => {
                let mut acc = acc;
                let ghost av = entry_list_view(acc@);
                acc.push(e0);
                proof {
                    assert(entry_list_view(acc@) =~= av.push((e0.0 as int, e0.1@)));
                }
                parse_more_entries_exec(s, j3, acc)
            },
        }
    }
}

fn parse_entries_exec(s: &Vec<char>, i: usize) -> (r: Result<
    (Vec<(u64, Decimal)>, usize),
    ParseError,
>)
    requires
        i <= s@.len(),
    ensures
        match r {
            Ok(p) => parse_entries(s@, i as int) == Ok::<_, ParseError>(
                (entry_list_view(p.0@), p.1 as int),
            ) && i < p.1 <= s@.len() && (forall|a: int|
                0 <= a < p.0@.len() ==> #[trigger] p.0@[a].1@ >= 0),
            Err(e) => parse_entries(s@, i as int) == Err::<(Seq<(int, int)>, int), _>(e),
        },
{
    let j = skip_ws_exec(s, i);
    if j >= s.len() {
        Err(ParseError::UnexpectedEnd)
    } else if s[j] == ']' {
        let empty: Vec<(u64, Decimal)> = Vec::new();
        proof {
            assert(entry_list_view(empty@) =~= Seq::<(int, int)>::empty());
        }
        Ok((empty, j + 1))
    } else {
        match parse_entry_exec(s, j) {
            Err(e) => Err(e),
            Ok((e0, j2)) => {
                let mut acc: Vec<(u64, Decimal)> = Vec::new();
                acc.push(e0);
                proof {
                    assert(entry_list_view(acc@) =~= seq![(e0.0 as int, e0.1@)]);
                }
                parse_more_entries_exec(s, j2, acc)
            },
        }
    }
}

fn parse_field_exec(s: &Vec<char>, i: usize, receipt: Option<String>, rewards: Vec<(u64, Decimal)>) -> (r:
    Result<((Option<String>, Vec<(u64, Decimal)>), usize), ParseError>)
    requires
        i <= s@.len(),
        forall|a: int| 0 <= a < rewards@.len() ==> #[trigger] rewards@[a].1@ >= 0,
    ensures
        match r {
            Ok(p) => parse_field(
                s@,
                i as int,
                match receipt {
                    Some(x) => Some(x@),
                    None => None,
                },
                entry_list_view(rewards@),
            ) == Ok::<_, ParseError>(
                (
                    (
                        match p.0.0 {
                            Some(x) => Some(x@),
                            None => None,
                        },
                        entry_list_view(p.0.1@),
                    ),
                    p.1 as int,
                ),
            ) && i < p.1 <= s@.len() && (forall|a: int|
                0 <= a < p.0.1@.len() ==> #[trigger] p.0.1@[a].1@ >= 0),
            Err(e) => parse_field(
                s@,
                i as int,
                match receipt {
                    Some(x) => Some(x@),
                    None => None,
                },
                entry_list_view(rewards@),
            ) == Err::<((Option<Seq<char>>, Seq<(int, int)>), int), _>(e),
        },
{
    if i >= s.len() {
        Err(ParseError::UnexpectedEnd)
    } else if !is_quote_exec(s[i]) {
        Err(ParseError::UnexpectedChar)
    } else {
        match parse_str_body_exec(s, i + 1) {
            Err(e) => Err(e),
            Ok((key, j)) => {
                let j2 = skip_ws_exec(s, j);
                if j2 >= s.len() {
                    Err(ParseError::UnexpectedEnd)
                } else if s[j2] != ':' {
                    Err(ParseError::UnexpectedChar)
                } else {
                    let j3 = skip_ws_exec(s, j2 + 1);
                    let key_string = crate::text::chars_to_string(&key);
                    if key_string == "pair_receipt_address".to_owned() {
                        if j3 >= s.len() {
                            Err(ParseError::UnexpectedEnd)
                        } else if !is_quote_exec(s[j3]) {
                            Err(ParseError::ReceiptNotAString)
                        } else {
                            match parse_str_body_exec(s, j3 + 1) {
                                Err(e) => Err(e),
                                Ok((v, j4)) => {
                                    let vs = crate::text::chars_to_string(&v);
                                    Ok(((Some(vs), rewards), j4))
                                },
                            }
                        }
                    } else if key_string == "pair_rewards".to_owned() {
                        if j3 >= s.len() {
                            Err(ParseError::UnexpectedEnd)
                        } else if s[j3] != '[' {
                            Err(ParseError::RewardsNotAnArray)
                        } else {
                            match parse_entries_exec(s, j3 + 1) {
                                Err(e) => Err(e),
                                Ok((es, j4)) => Ok(((receipt, es), j4)),
                            }
                        }
                    } else {
                        Err(ParseError::UnknownField)
                    }
                }
            },
        }
    }
}

fn parse_pair_fields_exec(
    s: &Vec<char>,
    i: usize,
    receipt: Option<String>,
    rewards: Vec<(u64, Decimal)>,
) -> (r: Result<((String, Vec<(u64, Decimal)>), usize), ParseError>)
    requires
        i <= s@.len(),
        forall|a: int| 0 <= a < rewards@.len() ==> #[trigger] rewards@[a].1@ >= 0,
    ensures
        match r {
            Ok(p) => parse_pair_fields(
                s@,
                i as int,
                match receipt {
                    Some(x) => Some(x@),
                    None => None,
                },
                entry_list_view(rewards@),
            ) == Ok::<_, ParseError>(
                ((p.0.0@, entry_list_view(p.0.1@)), p.1 as int),
            ) && i < p.1 <= s@.len() && (forall|a: int|
                0 <= a < p.0.1@.len() ==> #[trigger] p.0.1@[a].1@ >= 0),
            Err(e) => parse_pair_fields(
                s@,
                i as int,
                match receipt {
                    Some(x) => Some(x@),
                    None => None,
                },
                entry_list_view(rewards@),
            ) == Err::<((Seq<char>, Seq<(int, int)>), int), _>(e),
        },
    decreases s@.len() - i,
{
    let j = skip_ws_exec(s, i);
    if j >= s.len() {
        Err(ParseError::UnexpectedEnd)
    } else if s[j] == '}' {
        match receipt {
            Some(rcpt) => if rcpt.as_str().unicode_len() == 0 {
                Err(ParseError::MissingReceipt)
            } else {
                Ok(((rcpt, rewards), j + 1))
            },
            None => Err(ParseError::MissingReceipt),
        }
    } else if s[j] != ',' {
        Err(ParseError::UnexpectedChar)
    } else {
        let j2 = skip_ws_exec(s, j + 1);
        match parse_field_exec(s, j2, receipt, rewards) {
            Err(e) => Err(e),
            Ok(((r2, rw2), j3)) => parse_pair_fields_exec(s, j3, r2, rw2),
        }
    }
}

fn parse_pair_exec(s: &Vec<char>, i: usize) -> (r: Result<
    (crate::orders::JsonPairOrderRewards, usize),
    ParseError,
>)
    requires
        i <= s@.len(),
    ensures
        match r {
            Ok(p) => parse_pair(s@, i as int) == Ok::<_, ParseError>(
                (
                    (p.0.pair_receipt_address@, entry_list_view(p.0.pair_rewards@)),
                    p.1 as int,
                ),
            ) && i < p.1 <= s@.len() && (forall|a: int|
                0 <= a < p.0.pair_rewards@.len() ==> #[trigger] p.0.pair_rewards@[a].1@ >= 0),
            Err(e) => parse_pair(s@, i as int) == Err::<((Seq<char>, Seq<(int, int)>), int), _>(e),
        },
{
    if i >= s.len() {
        Err(ParseError::UnexpectedEnd)
    } else if s[i] != '{' {
        Err(ParseError::PairNotAnObject)
    } else {
        let j = skip_ws_exec(s, i + 1);
        if j >= s.len() {
            Err(ParseError::UnexpectedEnd)
        } else if s[j] == '}' {
            Err(ParseError::MissingReceipt)
        } else {
            let empty: Vec<(u64, Decimal)> = Vec::new();
            proof {
                assert(entry_list_view(empty@) =~= Seq::<(int, int)>::empty());
            }
            match parse_field_exec(s, j, None, empty) {
                Err(e) => Err(e),
                Ok(((r0, rw0), j2)) => match parse_pair_fields_exec(s, j2, r0, rw0) {
                    Err(e) => Err(e),
                    Ok(((rcpt, rws), j3)) => Ok(
                        (
                            crate::orders::JsonPairOrderRewards {
                                pair_receipt_address: rcpt,
                                pair_rewards: rws,
                            },
                            j3,
                        ),
                    ),
                },
            }
        }
    }
}

fn parse_more_pairs_exec(
    s: &Vec<char>,
    i: usize,
    acc: Vec<crate::orders::JsonPairOrderRewards>,
) -> (r: Result<(Vec<crate::orders::JsonPairOrderRewards>, usize), ParseError>)
    requires
        i <= s@.len(),
        forall|a: int, b: int|
            0 <= a < acc@.len() && 0 <= b < acc@[a].pair_rewards@.len()
                ==> #[trigger] acc@[a].pair_rewards@[b].1@ >= 0,
    ensures
        match r {
            Ok(p) => parse_more_pairs(s@, i as int, batch_text_view(acc@)) == Ok::<_, ParseError>(
                (batch_text_view(p.0@), p.1 as int),
            ) && i < p.1 <= s@.len() && (forall|a: int, b: int|
                0 <= a < p.0@.len() && 0 <= b < p.0@[a].pair_rewards@.len()
                    ==> #[trigger] p.0@[a].pair_rewards@[b].1@ >= 0),
            Err(e) => parse_more_pairs(s@, i as int, batch_text_view(acc@)) == Err::<
                (Seq<(Seq<char>, Seq<(int, int)>)>, int),
                _,
            >(e),
        },
    decreases s@.len() - i,
{
    let j = skip_ws_exec(s, i);
    if j >= s.len() {
        Err(ParseError::UnexpectedEnd)
    } else if s[j] == ']' {
        Ok((acc, j + 1))
    } else if s[j] != ',' {
        Err(ParseError::UnexpectedChar)
    } else {
        let j2 = skip_ws_exec(s, j + 1);
        match parse_pair_exec(s, j2) {
            Err(e) => Err(e),
            Ok((p0, j3)) => {
                let mut acc = acc;
                let ghost av = batch_text_view(acc@);
                let ghost p0v = (p0.pair_receipt_address@, entry_list_view(p0.pair_rewards@));
                acc.push(p0);
                proof {
                    assert(batch_text_view(acc@) =~= av.push(p0v));
                }
                parse_more_pairs_exec(s, j3, acc)
            },
        }
    }
}

/// Decodes a whole orders batch from its text.
pub fn parse_orders_rewards_data(orders_rewards_data_str: &str) -> (r: Result<
    Vec<crate::orders::JsonPairOrderRewards>,
    ParseError,
>)
    ensures
        match r {
            Ok(batch) => parse_orders_batch_text(orders_rewards_data_str@) == Ok::<_, ParseError>(
                batch_text_view(batch@),
            ) && (forall|a: int, b: int|
                0 <= a < batch@.len() && 0 <= b < batch@[a].pair_rewards@.len()
                    ==> #[trigger] batch@[a].pair_rewards@[b].1@ >= 0),
            Err(e) => parse_orders_batch_text(orders_rewards_data_str@) == Err::<
                Seq<(Seq<char>, Seq<(int, int)>)>,
                _,
            >(e),
        },
{
    let s = crate::text::string_to_chars(orders_rewards_data_str);
    let i = skip_ws_exec(&s, 0);
    if i >= s.len() {
        Err(ParseError::UnexpectedEnd)
    } else if s[i] != '[' {
        Err(ParseError::NotAnArray)
    } else {
        let j0 = skip_ws_exec(&s, i + 1);
        let inner = if j0 >= s.len() {
            Err(ParseError::UnexpectedEnd)
        } else if s[j0] == ']' {
            let empty: Vec<crate::orders::JsonPairOrderRewards> = Vec::new();
            proof {
                assert(batch_text_view(empty@) =~= Seq::<(Seq<char>, Seq<(int, int)>)>::empty());
            }
            Ok((empty, j0 + 1))
        } else {
            match parse_pair_exec(&s, j0) {
                Err(e) => Err(e),
                Ok((p0, j2)) => {
                    let mut acc: Vec<crate::orders::JsonPairOrderRewards> = Vec::new();
                    let ghost p0v = (p0.pair_receipt_address@, entry_list_view(p0.pair_rewards@));
                    acc.push(p0);
                    proof {
                        assert(batch_text_view(acc@) =~= seq![p0v]);
                    }
                    parse_more_pairs_exec(&s, j2, acc)
                },
            }
        };
        match inner {
            Err(e) => Err(e),
            Ok((ps, j)) => {
                let k = skip_ws_exec(&s, j);
                if k == s.len() {
                    Ok(ps)
                } else {
                    Err(ParseError::TrailingText)
                }
            },
        }
    }
}

/// The canonical text of an amount: whole units, a point, and exactly 18
/// fractional digits.
pub open spec fn ser_dec_mag(m: int) -> Seq<char> {
    dec_digits(m / (ATTO_PER_UNIT as int)) + seq!['.'] + dec_digits_padded(
        m % (ATTO_PER_UNIT as int),
        18,
    )
}

pub open spec fn ser_decimal(v: int) -> Seq<char> {
    if v < 0 {
        seq!['-'] + ser_dec_mag(-v)
    } else {
        ser_dec_mag(v)
    }
}

/// The canonical text of one reward entry.
pub open spec fn ser_entry(id: int, v: int) -> Seq<char> {
    seq!['['] + dec_digits(id) + ",\""@ + ser_decimal(v) + "\"]"@
}

pub open spec fn ser_entries(es: Seq<(int, int)>) -> Seq<char>
    decreases es.len(),
{
    if es.len() == 0 {
        Seq::<char>::empty()
    } else if es.len() == 1 {
        ser_entry(es[0].0, es[0].1)
    } else {
        ser_entries(es.drop_last()) + seq![','] + ser_entry(es.last().0, es.last().1)
    }
}

/// The canonical text of one batch element.
pub open spec fn ser_pair(receipt: Seq<char>, es: Seq<(int, int)>) -> Seq<char> {
    "{\"pair_receipt_address\":\""@ + receipt + "\",\"pair_rewards\":["@ + ser_entries(es)
        + "]}"@
}

pub open spec fn ser_pairs(b: Seq<(Seq<char>, Seq<(int, int)>)>) -> Seq<char>
    decreases b.len(),
{
    if b.len() == 0 {
        Seq::<char>::empty()
    } else if b.len() == 1 {
        ser_pair(b[0].0, b[0].1)
    } else {
        ser_pairs(b.drop_last()) + seq![','] + ser_pair(b.last().0, b.last().1)
    }
}

/// The canonical text of a whole batch.
pub open spec fn ser_batch(b: Seq<(Seq<char>, Seq<(int, int)>)>) -> Seq<char> {
    seq!['['] + ser_pairs(b) + seq![']']
}

fn push_str_chars(v: &mut Vec<char>, s: &str)
    ensures
        final(v)@ == old(v)@ + s@,
{
    let mut c = crate::text::string_to_chars(s);
    v.append(&mut c);
}

fn push_decimal(v: &mut Vec<char>, d: Decimal)
    requires
        d@ >= 0,
    ensures
        final(v)@ == old(v)@ + ser_decimal(d@),
{
    proof {
        lemma_pow10_18();
    }
    let a = d.atto();
    let units: i128 = a / ATTO_PER_UNIT;
    let frac: i128 = a % ATTO_PER_UNIT;
    let ghost v0 = v@;
    crate::text::push_digits_i128(v, units);
    v.push('.');
    crate::text::push_digits_padded(v, frac, 18);
    proof {
        assert(v@ =~= v0 + ser_decimal(d@));
    }
}

fn push_entry(v: &mut Vec<char>, id: u64, amt: Decimal)
    requires
        amt@ >= 0,
    ensures
        final(v)@ == old(v)@ + ser_entry(id as int, amt@),
{
    let ghost v0 = v@;
    v.push('[');
    crate::text::push_digits(v, id);
    push_str_chars(v, ",\"");
    push_decimal(v, amt);
    push_str_chars(v, "\"]");
    proof {
        assert(v@ =~= v0 + ser_entry(id as int, amt@));
    }
}

fn push_entries(v: &mut Vec<char>, es: &Vec<(u64, Decimal)>)
    requires
        forall|a: int| 0 <= a < es@.len() ==> #[trigger] es@[a].1@ >= 0,
    ensures
        final(v)@ == old(v)@ + ser_entries(entry_list_view(es@)),
{
    let ghost v0 = v@;
    let ghost elv = entry_list_view(es@);
    proof {
        assert(forall|a: int| 0 <= a < es@.len() ==> #[trigger] elv[a] == (
            es@[a].0 as int,
            es@[a].1@,
        ));
    }
    let mut i: usize = 0;
    while i < es.len()
        invariant
            i <= es@.len(),
            elv == entry_list_view(es@),
            elv.len() == es@.len(),
            forall|a: int| 0 <= a < es@.len() ==> #[trigger] elv[a] == (
                es@[a].0 as int,
                es@[a].1@,
            ),
            forall|a: int| 0 <= a < es@.len() ==> #[trigger] es@[a].1@ >= 0,
            v@ == v0 + ser_entries(elv.take(i as int)),
        decreases es@.len() - i,
    {
        if i > 0 {
            v.push(',');
        }
        push_entry(v, es[i].0, es[i].1);
        proof {
            assert(elv.take(i + 1).drop_last() =~= elv.take(i as int));
            assert(elv.take(i + 1).last() == elv[i as int]);
            if i == 0 {
                assert(elv.take(1)[0] == elv[0]);
                assert(v@ =~= v0 + ser_entries(elv.take(i + 1)));
            } else {
                assert(v@ =~= v0 + ser_entries(elv.take(i + 1)));
            }
        }
        i = i + 1;
    }
    proof {
        assert(elv.take(es@.len() as int) =~= elv);
    }
}

fn push_pair(v: &mut Vec<char>, p: &crate::orders::JsonPairOrderRewards)
    requires
        forall|a: int| 0 <= a < p.pair_rewards@.len() ==> #[trigger] p.pair_rewards@[a].1@ >= 0,
    ensures
        final(v)@ == old(v)@ + ser_pair(
            p.pair_receipt_address@,
            entry_list_view(p.pair_rewards@),
        ),
{
    let ghost v0 = v@;
    push_str_chars(v, "{\"pair_receipt_address\":\"");
    push_str_chars(v, p.pair_receipt_address.as_str());
    push_str_chars(v, "\",\"pair_rewards\":[");
    push_entries(v, &p.pair_rewards);
    push_str_chars(v, "]}");
    proof {
        assert(v@ =~= v0 + ser_pair(p.pair_receipt_address@, entry_list_view(p.pair_rewards@)));
    }
}

/// Encodes a batch as its canonical text.
pub fn serialize_orders_rewards_data(batch: &Vec<crate::orders::JsonPairOrderRewards>) -> (r:
    String)
    requires
        forall|a: int, b: int|
            0 <= a < batch@.len() && 0 <= b < batch@[a].pair_rewards@.len()
                ==> #[trigger] batch@[a].pair_rewards@[b].1@ >= 0,
    ensures
        r@ == ser_batch(batch_text_view(batch@)),
{
    let ghost bv = batch_text_view(batch@);
    proof {
        assert(forall|a: int| 0 <= a < batch@.len() ==> #[trigger] bv[a] == (
            batch@[a].pair_receipt_address@,
            entry_list_view(batch@[a].pair_rewards@),
        ));
    }
    let mut v: Vec<char> = Vec::new();
    v.push('[');
    let ghost v0 = v@;
    let mut i: usize = 0;
    while i < batch.len()
        invariant
            i <= batch@.len(),
            bv == batch_text_view(batch@),
            bv.len() == batch@.len(),
            forall|a: int| 0 <= a < batch@.len() ==> #[trigger] bv[a] == (
                batch@[a].pair_receipt_address@,
                entry_list_view(batch@[a].pair_rewards@),
            ),
            forall|a: int, b: int|
                0 <= a < batch@.len() && 0 <= b < batch@[a].pair_rewards@.len()
                    ==> #[trigger] batch@[a].pair_rewards@[b].1@ >= 0,
            v@ == v0 + ser_pairs(bv.take(i as int)),
        decreases batch@.len() - i,
    {
        if i > 0 {
            v.push(',');
        }
        push_pair(&mut v, &batch[i]);
        proof {
            assert(bv.take(i + 1).drop_last() =~= bv.take(i as int));
            assert(bv.take(i + 1).last() == bv[i as int]);
            if i == 0 {
                assert(bv.take(1)[0] == bv[0]);
                assert(v@ =~= v0 + ser_pairs(bv.take(i + 1)));
            } else {
                assert(v@ =~= v0 + ser_pairs(bv.take(i + 1)));
            }
        }
        i = i + 1;
    }
    v.push(']');
    proof {
        assert(bv.take(batch@.len() as int) =~= bv);
        assert(v@ =~= ser_batch(bv));
    }
    crate::text::chars_to_string(&v)
}

/// Every character is a digit.
pub open spec fn all_digits(ds: Seq<char>) -> bool {
    forall|k: int| 0 <= k < ds.len() ==> is_digit(#[trigger] ds[k])
}

/// The value of a digit run, folded left onto `acc`.
pub open spec fn digits_fold(acc: int, ds: Seq<char>) -> int
    decreases ds.len(),
{
    if ds.len() == 0 {
        acc
    } else {
        digits_fold(acc * 10 + digit_val(ds[0]), ds.drop_first())
    }
}

pub proof fn lemma_digit_char_val(d: int)
    requires
        0 <= d < 10,
    ensures
        is_digit(digit_char(d)),
        digit_val(digit_char(d)) == d,
        !is_quote(digit_char(d)),
        digit_char(d) != '\\',
        digit_char(d) != '.',
{
}

pub proof fn lemma_digits_fold_push(acc: int, ds: Seq<char>, d: char)
    ensures
        digits_fold(acc, ds.push(d)) == digits_fold(acc, ds) * 10 + digit_val(d),
    decreases ds.len(),
{
    reveal_with_fuel(digits_fold, 3);
    if ds.len() == 0 {
        assert(ds.push(d).drop_first() =~= ds);
        assert(ds.push(d)[0] == d);
    } else {
        assert(ds.push(d).drop_first() =~= ds.drop_first().push(d));
        assert(ds.push(d)[0] == ds[0]);
        lemma_digits_fold_push(acc * 10 + digit_val(ds[0]), ds.drop_first(), d);
    }
}

/// Folding the printed digits of `n` onto `acc` recovers `n`, shifted past
/// `acc`.
pub proof fn lemma_digits_fold_dec_digits(acc: int, n: int)
    requires
        n >= 0,
    ensures
        digits_fold(acc, dec_digits(n)) == acc * pow10(dec_digits(n).len() as int) + n,
        dec_digits(n).len() >= 1,
        all_digits(dec_digits(n)),
    decreases n,
{
    reveal_with_fuel(pow10, 3);
    reveal_with_fuel(digits_fold, 3);
    if n < 10 {
        lemma_digit_char_val(n);
        assert(dec_digits(n) == seq![digit_char(n)]);
        assert(dec_digits(n)[0] == digit_char(n));
        assert(dec_digits(n).drop_first() =~= Seq::<char>::empty());
    } else {
        lemma_digits_fold_dec_digits(acc, n / 10);
        lemma_digit_char_val(n % 10);
        let head = dec_digits(n / 10);
        lemma_digits_fold_push(acc, head, digit_char(n % 10));
        assert(digits_fold(acc, dec_digits(n)) == (acc * pow10(head.len() as int) + n / 10) * 10
            + n % 10);
        assert((acc * pow10(head.len() as int) + n / 10) * 10 == acc * (10 * pow10(
            head.len() as int,
        )) + (n / 10) * 10) by (nonlinear_arith);
        assert(forall|k: int|
            0 <= k < dec_digits(n).len() ==> is_digit(#[trigger] dec_digits(n)[k]));
    }
}

/// Folding the zero-padded digits of `f` recovers `f`.
pub proof fn lemma_digits_fold_padded(f: int, width: int)
    requires
        0 <= f < pow10(width),
        width >= 1,
    ensures
        digits_fold(0, dec_digits_padded(f, width)) == f,
        dec_digits_padded(f, width).len() == width,
        all_digits(dec_digits_padded(f, width)),
    decreases width,
{
    reveal_with_fuel(pow10, 3);
    reveal_with_fuel(digits_fold, 3);
    if width == 1 {
        lemma_digit_char_val(f);
        assert(dec_digits_padded(f, 1) == seq![digit_char(f)]);
        assert(dec_digits_padded(f, 1)[0] == digit_char(f));
        assert(dec_digits_padded(f, 1).drop_first() =~= Seq::<char>::empty());
    } else {
        assert(f / 10 < pow10(width - 1)) by {
            assert(pow10(width) == 10 * pow10(width - 1));
        }
        lemma_digits_fold_padded(f / 10, width - 1);
        lemma_digit_char_val(f % 10);
        let head = dec_digits_padded(f / 10, width - 1);
        lemma_digits_fold_push(0, head, digit_char(f % 10));
        assert(forall|k: int|
            0 <= k < dec_digits_padded(f, width).len() ==> is_digit(
                #[trigger] dec_digits_padded(f, width)[k],
            ));
    }
}

/// Folding digits onto a composite run splits at any point.
pub proof fn lemma_digits_fold_concat(acc: int, x: Seq<char>, y: Seq<char>)
    ensures
        digits_fold(acc, x + y) == digits_fold(digits_fold(acc, x), y),
    decreases x.len(),
{
    if x.len() == 0 {
        assert(x + y =~= y);
    } else {
        assert((x + y).drop_first() =~= x.drop_first() + y);
        lemma_digits_fold_concat(acc * 10 + digit_val(x[0]), x.drop_first(), y);
    }
}

/// Folding digits never shrinks a nonnegative accumulator.
pub proof fn lemma_digits_fold_grows(acc: int, ds: Seq<char>)
    requires
        acc >= 0,
        all_digits(ds),
    ensures
        digits_fold(acc, ds) >= acc,
    decreases ds.len(),
{
    if ds.len() > 0 {
        assert(is_digit(ds[0]));
        assert(forall|k: int| 0 <= k < ds.drop_first().len() ==> is_digit(
            #[trigger] ds.drop_first()[k],
        ));
        lemma_digits_fold_grows(acc * 10 + digit_val(ds[0]), ds.drop_first());
    }
}

pub proof fn lemma_digit_val_bounds(c: char)
    requires
        is_digit(c),
    ensures
        0 <= digit_val(c) <= 9,
        !is_quote(c),
        c != '\\',
        c != '.',
        c != '-',
        !is_ws(c),
{
}

/// A quote-free, escape-free body closed by a quote reads back exactly.
pub proof fn lemma_parse_str_body_at(s: Seq<char>, i: int, content: Seq<char>)
    requires
        0 <= i,
        i + content.len() < s.len(),
        s.subrange(i, i + content.len()) == content,
        forall|k: int|
            0 <= k < content.len() ==> !is_quote(#[trigger] content[k]) && content[k] != '\\',
        is_quote(s[i + content.len()]),
    ensures
        parse_str_body(s, i) == Ok::<_, ParseError>((content, i + content.len() + 1)),
    decreases content.len(),
{
    if content.len() == 0 {
        assert(content =~= Seq::<char>::empty());
        assert(is_quote(s[i]));
    } else {
        assert(s[i] == content[0]);
        assert(!is_quote(content[0]) && content[0] != '\\');
        let rest = content.drop_first();
        assert(s.subrange(i + 1, i + 1 + rest.len()) =~= rest);
        assert(forall|k: int| 0 <= k < rest.len() ==> rest[k] == content[k + 1]);
        lemma_parse_str_body_at(s, i + 1, rest);
        assert(seq![s[i]] + rest =~= content);
    }
}

/// A digit run followed by a non-digit scans to its folded value.
pub proof fn lemma_scan_u64_at(s: Seq<char>, i: int, ds: Seq<char>, acc: int)
    requires
        0 <= i,
        i + ds.len() <= s.len(),
        s.subrange(i, i + ds.len()) == ds,
        all_digits(ds),
        i + ds.len() == s.len() || !is_digit(s[i + ds.len()]),
        0 <= acc,
        digits_fold(acc, ds) <= u64::MAX,
    ensures
        scan_u64(s, i, acc) == Ok::<_, ParseError>((digits_fold(acc, ds), i + ds.len())),
    decreases ds.len(),
{
    if ds.len() == 0 {
    } else {
        assert(s[i] == ds[0]);
        assert(is_digit(ds[0]));
        lemma_digit_val_bounds(ds[0]);
        let acc2 = acc * 10 + digit_val(ds[0]);
        let rest = ds.drop_first();
        assert(forall|k: int| 0 <= k < rest.len() ==> rest[k] == ds[k + 1]);
        assert(all_digits(rest));
        lemma_digits_fold_grows(acc2, rest);
        assert(s.subrange(i + 1, i + 1 + rest.len()) =~= rest);
        lemma_scan_u64_at(s, i + 1, rest, acc2);
    }
}

/// The printed digits of `n` parse back to `n`.
pub proof fn lemma_parse_u64_at(s: Seq<char>, i: int, n: int)
    requires
        0 <= i,
        0 <= n <= u64::MAX,
        i + dec_digits(n).len() <= s.len(),
        s.subrange(i, i + dec_digits(n).len()) == dec_digits(n),
        i + dec_digits(n).len() == s.len() || !is_digit(s[i + dec_digits(n).len()]),
    ensures
        parse_u64(s, i) == Ok::<_, ParseError>((n, i + dec_digits(n).len())),
{
    lemma_digits_fold_dec_digits(0, n);
    assert(s[i] == dec_digits(n)[0]);
    lemma_scan_u64_at(s, i, dec_digits(n), 0);
}

/// The same for whole units.
pub proof fn lemma_scan_units_at(t: Seq<char>, i: int, ds: Seq<char>, acc: int)
    requires
        0 <= i,
        i + ds.len() <= t.len(),
        t.subrange(i, i + ds.len()) == ds,
        all_digits(ds),
        i + ds.len() == t.len() || !is_digit(t[i + ds.len()]),
        0 <= acc,
        digits_fold(acc, ds) <= MAX_UNITS,
    ensures
        scan_units(t, i, acc) == Ok::<_, ParseError>((digits_fold(acc, ds), i + ds.len())),
    decreases ds.len(),
{
    if ds.len() == 0 {
    } else {
        assert(t[i] == ds[0]);
        assert(is_digit(ds[0]));
        lemma_digit_val_bounds(ds[0]);
        let acc2 = acc * 10 + digit_val(ds[0]);
        let rest = ds.drop_first();
        assert(forall|k: int| 0 <= k < rest.len() ==> rest[k] == ds[k + 1]);
        assert(all_digits(rest));
        lemma_digits_fold_grows(acc2, rest);
        assert(t.subrange(i + 1, i + 1 + rest.len()) =~= rest);
        lemma_scan_units_at(t, i + 1, rest, acc2);
    }
}

/// A digit run to the end of the numeral scans to its atto-unit value.
pub proof fn lemma_scan_frac_at(t: Seq<char>, i: int, ds: Seq<char>, acc: int, count: int)
    requires
        0 <= i,
        i + ds.len() == t.len(),
        t.subrange(i, i + ds.len()) == ds,
        all_digits(ds),
        0 <= acc,
        0 <= count,
        count + ds.len() <= 18,
    ensures
        scan_frac(t, i, acc, count) == Ok::<_, ParseError>(
            digits_fold(acc, ds) * pow10(18 - count - ds.len()),
        ),
    decreases ds.len(),
{
    if ds.len() == 0 {
    } else {
        assert(t[i] == ds[0]);
        assert(is_digit(ds[0]));
        lemma_digit_val_bounds(ds[0]);
        let rest = ds.drop_first();
        assert(forall|k: int| 0 <= k < rest.len() ==> rest[k] == ds[k + 1]);
        assert(all_digits(rest));
        assert(t.subrange(i + 1, i + 1 + rest.len()) =~= rest);
        lemma_scan_frac_at(t, i + 1, rest, acc * 10 + digit_val(ds[0]), count + 1);
    }
}

/// The canonical text of a nonnegative amount parses back to it.
pub proof fn lemma_parse_decimal_of_ser(v: int)
    requires
        0 <= v <= i128::MAX,
    ensures
        parse_decimal(ser_decimal(v)) == Ok::<_, ParseError>(v),
        forall|k: int|
            0 <= k < ser_decimal(v).len() ==> !is_quote(#[trigger] ser_decimal(v)[k])
                && ser_decimal(v)[k] != '\\',
{
    lemma_pow10_18();
    let atto = ATTO_PER_UNIT as int;
    let u = v / atto;
    let f = v % atto;
    let ud = dec_digits(u);
    let fd = dec_digits_padded(f, 18);
    let t = ser_decimal(v);
    assert(t == ud + seq!['.'] + fd);
    lemma_digits_fold_dec_digits(0, u);
    lemma_digits_fold_padded(f, 18);
    assert(u <= MAX_UNITS) by {
        if u > MAX_UNITS as int {
            assert(u * atto >= (MAX_UNITS as int + 1) * atto) by (nonlinear_arith)
                requires
                    u >= MAX_UNITS as int + 1,
                    atto > 0,
            ;
            assert(u * atto <= v) by (nonlinear_arith)
                requires
                    v >= 0,
                    atto > 0,
                    u == v / atto,
            ;
        }
    }
    // the characters of the numeral
    assert(forall|k: int| 0 <= k < ud.len() ==> t[k] == ud[k]);
    assert(t[ud.len() as int] == '.');
    assert(forall|k: int| 0 <= k < fd.len() ==> t[ud.len() + 1 + k] == fd[k]);
    assert(forall|k: int|
        0 <= k < t.len() ==> !is_quote(#[trigger] t[k]) && t[k] != '\\') by {
        assert forall|k: int| 0 <= k < t.len() implies !is_quote(#[trigger] t[k]) && t[k]
            != '\\' by {
            if k < ud.len() {
                lemma_digit_val_bounds(ud[k]);
            } else if k == ud.len() {
            } else {
                lemma_digit_val_bounds(fd[k - ud.len() - 1]);
            }
        }
    }
    // units
    assert(t.subrange(0, ud.len() as int) =~= ud);
    assert(!is_digit(t[ud.len() as int])) by {
        assert(t[ud.len() as int] == '.');
    }
    lemma_scan_units_at(t, 0, ud, 0);
    assert(digits_fold(0, ud) == u);
    assert(t[0] == ud[0]);
    assert(is_digit(t[0]));
    // fraction
    let j = ud.len() as int;
    assert(t[j + 1] == fd[0]);
    assert(is_digit(fd[0]));
    assert(t.subrange(j + 1, j + 1 + fd.len()) =~= fd);
    lemma_scan_frac_at(t, j + 1, fd, 0, 0);
    assert(digits_fold(0, fd) == f);
    assert(pow10(18 - 0 - fd.len()) == 1);
    assert(u * atto + f == v);
    assert(parse_dec_mag(t, 0) == Ok::<_, ParseError>(v));
    assert(t[0] != '-') by {
        lemma_digit_val_bounds(t[0]);
    }
}

/// Well-formedness of a batch, as the canonical encoder needs it: non-empty
/// receipts without quote or escape characters, representable numbers.
pub open spec fn wf_batch_text(b: Seq<(Seq<char>, Seq<(int, int)>)>) -> bool {
    forall|i: int|
        0 <= i < b.len() ==> {
            &&& (#[trigger] b[i]).0.len() > 0
            &&& (forall|k: int|
                0 <= k < b[i].0.len() ==> !is_quote(#[trigger] b[i].0[k]) && b[i].0[k] != '\\')
            &&& (forall|j: int|
                0 <= j < b[i].1.len() ==> 0 <= (#[trigger] b[i].1[j]).0 <= u64::MAX && 0
                    <= b[i].1[j].1 <= i128::MAX)
        }
}

/// One position inside an embedded piece of text.
pub proof fn lemma_seq_at<A>(s: Seq<A>, i: int, e: Seq<A>, k: int)
    requires
        0 <= i,
        i + e.len() <= s.len(),
        s.subrange(i, i + e.len() as int) == e,
        0 <= k < e.len(),
    ensures
        s[i + k] == e[k],
{
    assert(s.subrange(i, i + e.len() as int)[k] == e[k]);
}

/// An embedded piece of text contains its own pieces.
pub proof fn lemma_sub_at<A>(s: Seq<A>, i: int, e: Seq<A>, lo: int, part: Seq<A>)
    requires
        0 <= i,
        i + e.len() <= s.len(),
        s.subrange(i, i + e.len() as int) == e,
        0 <= lo,
        lo + part.len() <= e.len(),
        forall|k: int| 0 <= k < part.len() ==> #[trigger] part[k] == e[lo + k],
    ensures
        s.subrange(i + lo, i + lo + part.len() as int) == part,
{
    assert forall|k: int| 0 <= k < part.len() implies s.subrange(
        i + lo,
        i + lo + part.len() as int,
    )[k] == part[k] by {
        lemma_seq_at(s, i, e, lo + k);
        assert(s.subrange(i + lo, i + lo + part.len() as int)[k] == s[i + lo + k]);
    }
    assert(s.subrange(i + lo, i + lo + part.len() as int) =~= part);
}

/// The canonical text of one entry parses back to it.
pub proof fn lemma_parse_entry_of_ser(s: Seq<char>, i: int, id: int, v: int)
    requires
        0 <= i,
        0 <= id <= u64::MAX,
        0 <= v <= i128::MAX,
        i + ser_entry(id, v).len() <= s.len(),
        s.subrange(i, i + ser_entry(id, v).len()) == ser_entry(id, v),
    ensures
        parse_entry(s, i) == Ok::<_, ParseError>(((id, v), i + ser_entry(id, v).len())),
{
    reveal_strlit(",\"");
    reveal_strlit("\"]");
    let e = ser_entry(id, v);
    let dd = dec_digits(id);
    let sd = ser_decimal(v);
    let ld = dd.len() as int;
    let lv = sd.len() as int;
    lemma_digits_fold_dec_digits(0, id);
    lemma_parse_decimal_of_ser(v);
    assert(e.len() == ld + lv + 5);
    assert(forall|k: int| 0 <= k < ld ==> #[trigger] e[1 + k] == dd[k]);
    assert(forall|k: int| 0 <= k < lv ==> #[trigger] e[3 + ld + k] == sd[k]);
    // the opening bracket
    lemma_seq_at(s, i, e, 0);
    assert(s[i] == '[');
    // the order number
    assert(is_digit(dd[0]));
    lemma_digit_val_bounds(dd[0]);
    lemma_seq_at(s, i, e, 1);
    assert(s[i + 1] == dd[0]);
    assert(skip_ws(s, i + 1) == i + 1);
    lemma_sub_at(s, i, e, 1, dd);
    assert(s.subrange(i + 1, i + 1 + ld) == dd);
    lemma_seq_at(s, i, e, 1 + ld);
    assert(s[i + 1 + ld] == ',');
    lemma_parse_u64_at(s, i + 1, id);
    assert(parse_order_id(s, i + 1) == Ok::<_, ParseError>((id, i + 1 + ld)));
    // the comma
    assert(skip_ws(s, i + 1 + ld) == i + 1 + ld);
    // the amount string
    lemma_seq_at(s, i, e, 2 + ld);
    assert(s[i + 2 + ld] == '"');
    assert(skip_ws(s, i + 2 + ld) == i + 2 + ld);
    lemma_sub_at(s, i, e, 3 + ld, sd);
    lemma_seq_at(s, i, e, 3 + ld + lv);
    assert(is_quote(s[i + 3 + ld + lv]));
    lemma_parse_str_body_at(s, i + 3 + ld, sd);
    assert(parse_amount(s, i + 2 + ld) == Ok::<_, ParseError>((v, i + 4 + ld + lv)));
    // the closing bracket
    lemma_seq_at(s, i, e, 4 + ld + lv);
    assert(s[i + 4 + ld + lv] == ']');
    assert(skip_ws(s, i + 4 + ld + lv) == i + 4 + ld + lv);
}

/// The text of the entries after the first: a comma before each.
pub open spec fn ser_more_entries(rest: Seq<(int, int)>) -> Seq<char>
    decreases rest.len(),
{
    if rest.len() == 0 {
        Seq::<char>::empty()
    } else {
        seq![','] + ser_entry(rest[0].0, rest[0].1) + ser_more_entries(rest.drop_first())
    }
}

pub proof fn lemma_ser_more_entries_push(xs: Seq<(int, int)>, e: (int, int))
    ensures
        ser_more_entries(xs.push(e)) == ser_more_entries(xs) + seq![','] + ser_entry(e.0, e.1),
    decreases xs.len(),
{
    reveal_with_fuel(ser_more_entries, 3);
    if xs.len() == 0 {
        assert(xs.push(e).drop_first() =~= Seq::<(int, int)>::empty());
        assert(xs.push(e)[0] == e);
        assert(ser_more_entries(xs.push(e)) =~= ser_more_entries(xs) + seq![','] + ser_entry(
            e.0,
            e.1,
        ));
    } else {
        assert(xs.push(e).drop_first() =~= xs.drop_first().push(e));
        assert(xs.push(e)[0] == xs[0]);
        lemma_ser_more_entries_push(xs.drop_first(), e);
        assert(ser_more_entries(xs.push(e)) =~= ser_more_entries(xs) + seq![','] + ser_entry(
            e.0,
            e.1,
        ));
    }
}

/// The whole entries text splits as first entry plus the rest.
pub proof fn lemma_ser_entries_front(es: Seq<(int, int)>)
    requires
        es.len() >= 1,
    ensures
        ser_entries(es) == ser_entry(es[0].0, es[0].1) + ser_more_entries(es.drop_first()),
    decreases es.len(),
{
    reveal_with_fuel(ser_more_entries, 3);
    if es.len() == 1 {
        assert(es.drop_first() =~= Seq::<(int, int)>::empty());
        assert(ser_entries(es) =~= ser_entry(es[0].0, es[0].1) + ser_more_entries(
            es.drop_first(),
        ));
    } else {
        let head = es.drop_last();
        lemma_ser_entries_front(head);
        assert(head[0] == es[0]);
        assert(head.drop_first().push(es.last()) =~= es.drop_first());
        lemma_ser_more_entries_push(head.drop_first(), es.last());
        assert(ser_entries(es) =~= ser_entry(es[0].0, es[0].1) + ser_more_entries(
            es.drop_first(),
        ));
    }
}

/// The remaining entries parse back and append to what was read so far.
pub proof fn lemma_parse_more_entries_of_ser(
    s: Seq<char>,
    i: int,
    done: Seq<(int, int)>,
    rest: Seq<(int, int)>,
)
    requires
        0 <= i,
        i + ser_more_entries(rest).len() + 1 <= s.len(),
        s.subrange(i, i + ser_more_entries(rest).len()) == ser_more_entries(rest),
        s[i + ser_more_entries(rest).len()] == ']',
        forall|j: int|
            0 <= j < rest.len() ==> 0 <= (#[trigger] rest[j]).0 <= u64::MAX && 0 <= rest[j].1
                <= i128::MAX,
    ensures
        parse_more_entries(s, i, done) == Ok::<_, ParseError>(
            (done + rest, i + ser_more_entries(rest).len() + 1),
        ),
    decreases rest.len(),
{
    let m = ser_more_entries(rest);
    if rest.len() == 0 {
        assert(s[i] == ']');
        assert(skip_ws(s, i) == i);
        assert(done + rest =~= done);
    } else {
        let e0 = ser_entry(rest[0].0, rest[0].1);
        let tail = rest.drop_first();
        let mt = ser_more_entries(tail);
        assert(m == seq![','] + e0 + mt);
        assert(forall|k: int| 0 <= k < e0.len() ==> #[trigger] e0[k] == m[1 + k]);
        assert(forall|k: int| 0 <= k < mt.len() ==> #[trigger] mt[k] == m[1 + e0.len() + k]);
        lemma_seq_at(s, i, m, 0);
        assert(s[i] == ',');
        assert(skip_ws(s, i) == i);
        lemma_seq_at(s, i, m, 1);
        assert(s[i + 1] == '[');
        assert(skip_ws(s, i + 1) == i + 1);
        assert(0 <= rest[0].0 <= u64::MAX && 0 <= rest[0].1 <= i128::MAX);
        lemma_sub_at(s, i, m, 1, e0);
        lemma_parse_entry_of_ser(s, i + 1, rest[0].0, rest[0].1);
        let j = i + 1 + e0.len();
        assert(forall|k: int| 0 <= k < tail.len() ==> tail[k] == rest[k + 1]);
        lemma_sub_at(s, i, m, 1 + e0.len() as int, mt);
        assert(s[j + mt.len()] == ']');
        lemma_parse_more_entries_of_ser(s, j, done.push(rest[0]), tail);
        assert(done.push(rest[0]) + tail =~= done + rest);
        assert(parse_entry(s, i + 1) == Ok::<_, ParseError>(((rest[0].0, rest[0].1), j)));
        assert((rest[0].0, rest[0].1) == rest[0]);
    }
}

/// A whole entries text followed by its closing bracket parses back.
pub proof fn lemma_parse_entries_of_ser(s: Seq<char>, i: int, es: Seq<(int, int)>)
    requires
        0 <= i,
        i + ser_entries(es).len() + 1 <= s.len(),
        s.subrange(i, i + ser_entries(es).len()) == ser_entries(es),
        s[i + ser_entries(es).len()] == ']',
        forall|j: int|
            0 <= j < es.len() ==> 0 <= (#[trigger] es[j]).0 <= u64::MAX && 0 <= es[j].1
                <= i128::MAX,
    ensures
        parse_entries(s, i) == Ok::<_, ParseError>((es, i + ser_entries(es).len() + 1)),
{
    let t = ser_entries(es);
    if es.len() == 0 {
        assert(s[i] == ']');
        assert(skip_ws(s, i) == i);
        assert(Seq::<(int, int)>::empty() =~= es);
    } else {
        lemma_ser_entries_front(es);
        let e0 = ser_entry(es[0].0, es[0].1);
        let tail = es.drop_first();
        let mt = ser_more_entries(tail);
        assert(t == e0 + mt);
        assert(forall|k: int| 0 <= k < e0.len() ==> #[trigger] e0[k] == t[k]);
        assert(forall|k: int| 0 <= k < mt.len() ==> #[trigger] mt[k] == t[e0.len() + k]);
        lemma_seq_at(s, i, t, 0);
        assert(s[i] == '[');
        assert(skip_ws(s, i) == i);
        lemma_sub_at(s, i, t, 0, e0);
        assert(0 <= es[0].0 <= u64::MAX && 0 <= es[0].1 <= i128::MAX);
        lemma_parse_entry_of_ser(s, i, es[0].0, es[0].1);
        let j = i + e0.len();
        assert(forall|k: int| 0 <= k < tail.len() ==> tail[k] == es[k + 1]);
        lemma_sub_at(s, i, t, e0.len() as int, mt);
        assert(s[j + mt.len()] == ']');
        lemma_parse_more_entries_of_ser(s, j, seq![es[0]], tail);
        assert(seq![es[0]] + tail =~= es);
        assert((es[0].0, es[0].1) == es[0]);
    }
}

/// The canonical text of one batch element parses back to it.
pub proof fn lemma_parse_pair_of_ser(s: Seq<char>, i: int, receipt: Seq<char>, es: Seq<(int, int)>)
    requires
        0 <= i,
        receipt.len() > 0,
        forall|k: int|
            0 <= k < receipt.len() ==> !is_quote(#[trigger] receipt[k]) && receipt[k] != '\\',
        forall|j: int|
            0 <= j < es.len() ==> 0 <= (#[trigger] es[j]).0 <= u64::MAX && 0 <= es[j].1
                <= i128::MAX,
        i + ser_pair(receipt, es).len() <= s.len(),
        s.subrange(i, i + ser_pair(receipt, es).len()) == ser_pair(receipt, es),
    ensures
        parse_pair(s, i) == Ok::<_, ParseError>(
            ((receipt, es), i + ser_pair(receipt, es).len()),
        ),
{
    reveal_strlit("{\"pair_receipt_address\":\"");
    reveal_strlit("\",\"pair_rewards\":[");
    reveal_strlit("]}");
    reveal_strlit("pair_receipt_address");
    reveal_strlit("pair_rewards");
    let l1 = "{\"pair_receipt_address\":\""@;
    let l2 = "\",\"pair_rewards\":["@;
    let l3 = "]}"@;
    let en = ser_entries(es);
    let e = ser_pair(receipt, es);
    let lr = receipt.len() as int;
    let le = en.len() as int;
    assert(l1.len() == 25);
    assert(l2.len() == 18);
    assert(l3.len() == 2);
    assert(e.len() == 45 + lr + le);
    assert(forall|k: int| 0 <= k < 25 ==> #[trigger] e[k] == l1[k]);
    assert(forall|k: int| 0 <= k < lr ==> #[trigger] receipt[k] == e[25 + k]);
    assert(forall|k: int| 0 <= k < 18 ==> #[trigger] l2[k] == e[25 + lr + k]);
    assert(forall|k: int| 0 <= k < le ==> #[trigger] en[k] == e[43 + lr + k]);
    assert(forall|k: int| 0 <= k < 2 ==> #[trigger] l3[k] == e[43 + lr + le + k]);
    // the opening brace and the first key
    lemma_seq_at(s, i, e, 0);
    assert(s[i] == '{');
    lemma_seq_at(s, i, e, 1);
    assert(s[i + 1] == '"');
    assert(skip_ws(s, i + 1) == i + 1);
    assert(receipt_key().len() == 20);
    assert(forall|k: int| 0 <= k < 20 ==> #[trigger] receipt_key()[k] == e[2 + k]);
    assert(forall|k: int|
        0 <= k < 20 ==> !is_quote(#[trigger] receipt_key()[k]) && receipt_key()[k] != '\\');
    lemma_sub_at(s, i, e, 2, receipt_key());
    lemma_seq_at(s, i, e, 22);
    assert(is_quote(s[i + 22]));
    lemma_parse_str_body_at(s, i + 2, receipt_key());
    // the colon and the receipt value
    lemma_seq_at(s, i, e, 23);
    assert(s[i + 23] == ':');
    assert(skip_ws(s, i + 23) == i + 23);
    lemma_seq_at(s, i, e, 24);
    assert(s[i + 24] == '"');
    assert(skip_ws(s, i + 24) == i + 24);
    lemma_sub_at(s, i, e, 25, receipt);
    lemma_seq_at(s, i, e, 25 + lr);
    assert(is_quote(s[i + 25 + lr]));
    lemma_parse_str_body_at(s, i + 25, receipt);
    assert(parse_field(s, i + 1, None, Seq::<(int, int)>::empty()) == Ok::<_, ParseError>(
        ((Some(receipt), Seq::<(int, int)>::empty()), i + 26 + lr),
    ));
    // the comma and the second key
    lemma_seq_at(s, i, e, 26 + lr);
    assert(s[i + 26 + lr] == ',');
    assert(skip_ws(s, i + 26 + lr) == i + 26 + lr);
    lemma_seq_at(s, i, e, 27 + lr);
    assert(s[i + 27 + lr] == '"');
    assert(skip_ws(s, i + 27 + lr) == i + 27 + lr);
    assert(rewards_key().len() == 12);
    assert(forall|k: int| 0 <= k < 12 ==> #[trigger] rewards_key()[k] == e[28 + lr + k]);
    assert(forall|k: int|
        0 <= k < 12 ==> !is_quote(#[trigger] rewards_key()[k]) && rewards_key()[k] != '\\');
    lemma_sub_at(s, i, e, 28 + lr, rewards_key());
    lemma_seq_at(s, i, e, 40 + lr);
    assert(is_quote(s[i + 40 + lr]));
    lemma_parse_str_body_at(s, i + 28 + lr, rewards_key());
    assert(rewards_key() != receipt_key()) by {
        assert(receipt_key().len() == 20 && rewards_key().len() == 12);
    }
    // the colon and the rewards array
    lemma_seq_at(s, i, e, 41 + lr);
    assert(s[i + 41 + lr] == ':');
    assert(skip_ws(s, i + 41 + lr) == i + 41 + lr);
    lemma_seq_at(s, i, e, 42 + lr);
    assert(s[i + 42 + lr] == '[');
    assert(skip_ws(s, i + 42 + lr) == i + 42 + lr);
    lemma_sub_at(s, i, e, 43 + lr, en);
    lemma_seq_at(s, i, e, 43 + lr + le);
    assert(s[i + 43 + lr + le] == ']');
    lemma_parse_entries_of_ser(s, i + 43 + lr, es);
    assert(parse_field(s, i + 27 + lr, Some(receipt), Seq::<(int, int)>::empty()) == Ok::<
        _,
        ParseError,
    >(((Some(receipt), es), i + 44 + lr + le)));
    // the closing brace
    lemma_seq_at(s, i, e, 44 + lr + le);
    assert(s[i + 44 + lr + le] == '}');
    assert(skip_ws(s, i + 44 + lr + le) == i + 44 + lr + le);
    assert(parse_pair_fields(s, i + 44 + lr + le, Some(receipt), es) == Ok::<_, ParseError>(
        ((receipt, es), i + 45 + lr + le),
    ));
    assert(parse_pair_fields(s, i + 26 + lr, Some(receipt), Seq::<(int, int)>::empty()) == Ok::<
        _,
        ParseError,
    >(((receipt, es), i + 45 + lr + le)));
}

/// The text of the batch elements after the first: a comma before each.
pub open spec fn ser_more_pairs(rest: Seq<(Seq<char>, Seq<(int, int)>)>) -> Seq<char>
    decreases rest.len(),
{
    if rest.len() == 0 {
        Seq::<char>::empty()
    } else {
        seq![','] + ser_pair(rest[0].0, rest[0].1) + ser_more_pairs(rest.drop_first())
    }
}

pub proof fn lemma_ser_more_pairs_push(
    xs: Seq<(Seq<char>, Seq<(int, int)>)>,
    e: (Seq<char>, Seq<(int, int)>),
)
    ensures
        ser_more_pairs(xs.push(e)) == ser_more_pairs(xs) + seq![','] + ser_pair(e.0, e.1),
    decreases xs.len(),
{
    reveal_with_fuel(ser_more_pairs, 3);
    if xs.len() == 0 {
        assert(xs.push(e).drop_first() =~= Seq::<(Seq<char>, Seq<(int, int)>)>::empty());
        assert(xs.push(e)[0] == e);
        assert(ser_more_pairs(xs.push(e)) =~= ser_more_pairs(xs) + seq![','] + ser_pair(
            e.0,
            e.1,
        ));
    } else {
        assert(xs.push(e).drop_first() =~= xs.drop_first().push(e));
        assert(xs.push(e)[0] == xs[0]);
        lemma_ser_more_pairs_push(xs.drop_first(), e);
        assert(ser_more_pairs(xs.push(e)) =~= ser_more_pairs(xs) + seq![','] + ser_pair(
            e.0,
            e.1,
        ));
    }
}

pub proof fn lemma_ser_pairs_front(b: Seq<(Seq<char>, Seq<(int, int)>)>)
    requires
        b.len() >= 1,
    ensures
        ser_pairs(b) == ser_pair(b[0].0, b[0].1) + ser_more_pairs(b.drop_first()),
    decreases b.len(),
{
    reveal_with_fuel(ser_more_pairs, 3);
    if b.len() == 1 {
        assert(b.drop_first() =~= Seq::<(Seq<char>, Seq<(int, int)>)>::empty());
        assert(ser_pairs(b) =~= ser_pair(b[0].0, b[0].1) + ser_more_pairs(b.drop_first()));
    } else {
        let head = b.drop_last();
        lemma_ser_pairs_front(head);
        assert(head[0] == b[0]);
        assert(head.drop_first().push(b.last()) =~= b.drop_first());
        lemma_ser_more_pairs_push(head.drop_first(), b.last());
        assert(ser_pairs(b) =~= ser_pair(b[0].0, b[0].1) + ser_more_pairs(b.drop_first()));
    }
}

/// The remaining batch elements parse back and append to what was read.
pub proof fn lemma_parse_more_pairs_of_ser(
    s: Seq<char>,
    i: int,
    done: Seq<(Seq<char>, Seq<(int, int)>)>,
    rest: Seq<(Seq<char>, Seq<(int, int)>)>,
)
    requires
        0 <= i,
        wf_batch_text(rest),
        i + ser_more_pairs(rest).len() + 1 <= s.len(),
        s.subrange(i, i + ser_more_pairs(rest).len()) == ser_more_pairs(rest),
        s[i + ser_more_pairs(rest).len()] == ']',
    ensures
        parse_more_pairs(s, i, done) == Ok::<_, ParseError>(
            (done + rest, i + ser_more_pairs(rest).len() + 1),
        ),
    decreases rest.len(),
{
    let m = ser_more_pairs(rest);
    if rest.len() == 0 {
        assert(s[i] == ']');
        assert(skip_ws(s, i) == i);
        assert(done + rest =~= done);
    } else {
        let p0 = ser_pair(rest[0].0, rest[0].1);
        let tail = rest.drop_first();
        let mt = ser_more_pairs(tail);
        assert(m == seq![','] + p0 + mt);
        assert(forall|k: int| 0 <= k < p0.len() ==> #[trigger] p0[k] == m[1 + k]);
        assert(forall|k: int| 0 <= k < mt.len() ==> #[trigger] mt[k] == m[1 + p0.len() + k]);
        lemma_seq_at(s, i, m, 0);
        assert(s[i] == ',');
        assert(skip_ws(s, i) == i);
        lemma_seq_at(s, i, m, 1);
        assert(s[i + 1] == '{') by {
            reveal_strlit("{\"pair_receipt_address\":\"");
            assert(p0[0] == '{');
        }
        assert(skip_ws(s, i + 1) == i + 1);
        lemma_sub_at(s, i, m, 1, p0);
        assert(rest[0].0.len() > 0 && (forall|k: int|
            0 <= k < rest[0].0.len() ==> !is_quote(#[trigger] rest[0].0[k]) && rest[0].0[k]
                != '\\') && (forall|j: int|
            0 <= j < rest[0].1.len() ==> 0 <= (#[trigger] rest[0].1[j]).0 <= u64::MAX && 0
                <= rest[0].1[j].1 <= i128::MAX));
        lemma_parse_pair_of_ser(s, i + 1, rest[0].0, rest[0].1);
        let j = i + 1 + p0.len();
        assert(forall|k: int| 0 <= k < tail.len() ==> tail[k] == rest[k + 1]);
        assert(wf_batch_text(tail));
        lemma_sub_at(s, i, m, 1 + p0.len() as int, mt);
        assert(s[j + mt.len()] == ']');
        lemma_parse_more_pairs_of_ser(s, j, done.push(rest[0]), tail);
        assert(done.push(rest[0]) + tail =~= done + rest);
        assert(parse_pair(s, i + 1) == Ok::<_, ParseError>(((rest[0].0, rest[0].1), j)));
        assert((rest[0].0, rest[0].1) == rest[0]);
    }
}

/// A decoded string body holds no quote and no backslash.
pub proof fn lemma_parse_str_body_wf(s: Seq<char>, i: int)
    ensures
        match parse_str_body(s, i) {
            Ok(p) => forall|k: int|
                0 <= k < p.0.len() ==> !is_quote(#[trigger] p.0[k]) && p.0[k] != '\\',
            Err(_) => true,
        },
    decreases s.len() - i,
{
    if 0 <= i < s.len() && !is_quote(s[i]) && s[i] != '\\' {
        lemma_parse_str_body_wf(s, i + 1);
        match parse_str_body(s, i + 1) {
            Ok((rest, _)) => {
                let c = seq![s[i]] + rest;
                assert(forall|k: int| 1 <= k < c.len() ==> #[trigger] c[k] == rest[k - 1]);
                assert(c[0] == s[i]);
            },
            Err(_) => {},
        }
    }
}

/// Decoded entry lists hold only representable numbers.
pub proof fn lemma_parse_more_entries_wf(s: Seq<char>, i: int, acc: Seq<(int, int)>)
    requires
        0 <= i <= s.len(),
        forall|j: int|
            0 <= j < acc.len() ==> 0 <= (#[trigger] acc[j]).0 <= u64::MAX && 0 <= acc[j].1
                <= i128::MAX,
    ensures
        match parse_more_entries(s, i, acc) {
            Ok(p) => forall|j: int|
                0 <= j < p.0.len() ==> 0 <= (#[trigger] p.0[j]).0 <= u64::MAX && 0 <= p.0[j].1
                    <= i128::MAX,
            Err(_) => true,
        },
    decreases s.len() - i,
{
    lemma_skip_ws_bounds(s, i);
    let j = skip_ws(s, i);
    if j < s.len() && s[j] != ']' && s[j] == ',' {
        lemma_skip_ws_bounds(s, j + 1);
        let j2 = skip_ws(s, j + 1);
        lemma_parse_entry_advances(s, j2);
        match parse_entry(s, j2) {
            Ok((e0, j3)) => {
                assert(forall|a: int| 0 <= a < acc.push(e0).len() ==> acc.push(e0)[a] == (if a
                    < acc.len() {
                    acc[a]
                } else {
                    e0
                }));
                lemma_parse_more_entries_wf(s, j3, acc.push(e0));
            },
            Err(_) => {},
        }
    }
}

pub proof fn lemma_parse_entries_wf(s: Seq<char>, i: int)
    requires
        0 <= i <= s.len(),
    ensures
        match parse_entries(s, i) {
            Ok(p) => forall|j: int|
                0 <= j < p.0.len() ==> 0 <= (#[trigger] p.0[j]).0 <= u64::MAX && 0 <= p.0[j].1
                    <= i128::MAX,
            Err(_) => true,
        },
{
    lemma_skip_ws_bounds(s, i);
    let j = skip_ws(s, i);
    if j < s.len() && s[j] != ']' {
        lemma_parse_entry_advances(s, j);
        match parse_entry(s, j) {
            Ok((e0, j2)) => {
                assert(seq![e0][0] == e0);
                lemma_parse_more_entries_wf(s, j2, seq![e0]);
            },
            Err(_) => {},
        }
    }
}

/// What holds of one decoded batch element: a usable receipt and
/// representable numbers.
pub open spec fn wf_pair_text(p: (Seq<char>, Seq<(int, int)>)) -> bool {
    &&& p.0.len() > 0
    &&& (forall|k: int| 0 <= k < p.0.len() ==> !is_quote(#[trigger] p.0[k]) && p.0[k] != '\\')
    &&& (forall|j: int|
        0 <= j < p.1.len() ==> 0 <= (#[trigger] p.1[j]).0 <= u64::MAX && 0 <= p.1[j].1
            <= i128::MAX)
}

pub proof fn lemma_parse_field_wf(
    s: Seq<char>,
    i: int,
    receipt: Option<Seq<char>>,
    rewards: Seq<(int, int)>,
)
    requires
        0 <= i <= s.len(),
        match receipt {
            Some(r) => forall|k: int|
                0 <= k < r.len() ==> !is_quote(#[trigger] r[k]) && r[k] != '\\',
            None => true,
        },
        forall|j: int|
            0 <= j < rewards.len() ==> 0 <= (#[trigger] rewards[j]).0 <= u64::MAX && 0
                <= rewards[j].1 <= i128::MAX,
    ensures
        match parse_field(s, i, receipt, rewards) {
            Ok(p) => {
                &&& match p.0.0 {
                    Some(r) => forall|k: int|
                        0 <= k < r.len() ==> !is_quote(#[trigger] r[k]) && r[k] != '\\',
                    None => true,
                }
                &&& (forall|j: int|
                    0 <= j < p.0.1.len() ==> 0 <= (#[trigger] p.0.1[j]).0 <= u64::MAX && 0
                        <= p.0.1[j].1 <= i128::MAX)
            },
            Err(_) => true,
        },
{
    if 0 <= i < s.len() && is_quote(s[i]) {
        lemma_parse_str_body_advances(s, i + 1);
        match parse_str_body(s, i + 1) {
            Ok((key, j)) => {
                lemma_skip_ws_bounds(s, j);
                let j2 = skip_ws(s, j);
                if j2 < s.len() && s[j2] == ':' {
                    lemma_skip_ws_bounds(s, j2 + 1);
                    let j3 = skip_ws(s, j2 + 1);
                    if key == receipt_key() {
                        if j3 < s.len() && is_quote(s[j3]) {
                            lemma_parse_str_body_wf(s, j3 + 1);
                        }
                    } else if key == rewards_key() {
                        if j3 < s.len() && s[j3] == '[' {
                            lemma_parse_entries_wf(s, j3 + 1);
                        }
                    }
                }
            },
            Err(_) => {},
        }
    }
}

pub proof fn lemma_parse_pair_fields_wf(
    s: Seq<char>,
    i: int,
    receipt: Option<Seq<char>>,
    rewards: Seq<(int, int)>,
)
    requires
        0 <= i <= s.len(),
        match receipt {
            Some(r) => forall|k: int|
                0 <= k < r.len() ==> !is_quote(#[trigger] r[k]) && r[k] != '\\',
            None => true,
        },
        forall|j: int|
            0 <= j < rewards.len() ==> 0 <= (#[trigger] rewards[j]).0 <= u64::MAX && 0
                <= rewards[j].1 <= i128::MAX,
    ensures
        match parse_pair_fields(s, i, receipt, rewards) {
            Ok(p) => wf_pair_text(p.0),
            Err(_) => true,
        },
    decreases s.len() - i,
{
    lemma_skip_ws_bounds(s, i);
    let j = skip_ws(s, i);
    if j < s.len() && s[j] != '}' && s[j] == ',' {
        lemma_skip_ws_bounds(s, j + 1);
        let j2 = skip_ws(s, j + 1);
        lemma_parse_field_advances(s, j2, receipt, rewards);
        lemma_parse_field_wf(s, j2, receipt, rewards);
        match parse_field(s, j2, receipt, rewards) {
            Ok(((r2, rw2), j3)) => {
                lemma_parse_pair_fields_wf(s, j3, r2, rw2);
            },
            Err(_) => {},
        }
    }
}

pub proof fn lemma_parse_pair_wf(s: Seq<char>, i: int)
    requires
        0 <= i,
    ensures
        match parse_pair(s, i) {
            Ok(p) => wf_pair_text(p.0),
            Err(_) => true,
        },
{
    if 0 <= i < s.len() && s[i] == '{' {
        lemma_skip_ws_bounds(s, i + 1);
        let j = skip_ws(s, i + 1);
        if j < s.len() && s[j] != '}' {
            lemma_parse_field_advances(s, j, None, Seq::<(int, int)>::empty());
            lemma_parse_field_wf(s, j, None, Seq::<(int, int)>::empty());
            match parse_field(s, j, None, Seq::<(int, int)>::empty()) {
                Ok(((r, rw), j2)) => {
                    lemma_parse_pair_fields_wf(s, j2, r, rw);
                },
                Err(_) => {},
            }
        }
    }
}

pub proof fn lemma_parse_more_pairs_wf(
    s: Seq<char>,
    i: int,
    acc: Seq<(Seq<char>, Seq<(int, int)>)>,
)
    requires
        0 <= i <= s.len(),
        wf_batch_text(acc),
    ensures
        match parse_more_pairs(s, i, acc) {
            Ok(p) => wf_batch_text(p.0),
            Err(_) => true,
        },
    decreases s.len() - i,
{
    lemma_skip_ws_bounds(s, i);
    let j = skip_ws(s, i);
    if j < s.len() && s[j] != ']' && s[j] == ',' {
        lemma_skip_ws_bounds(s, j + 1);
        let j2 = skip_ws(s, j + 1);
        lemma_parse_pair_advances(s, j2);
        lemma_parse_pair_wf(s, j2);
        match parse_pair(s, j2) {
            Ok((p0, j3)) => {
                assert(forall|a: int| 0 <= a < acc.push(p0).len() ==> acc.push(p0)[a] == (if a
                    < acc.len() {
                    acc[a]
                } else {
                    p0
                }));
                lemma_parse_more_pairs_wf(s, j3, acc.push(p0));
            },
            Err(_) => {},
        }
    }
}

/// Every batch the decoder accepts is well-formed, so re-encoding it and
/// decoding again is the identity.
pub proof fn lemma_parse_is_wf(s: Seq<char>)
    ensures
        match parse_orders_batch_text(s) {
            Ok(b) => wf_batch_text(b) && parse_orders_batch_text(ser_batch(b)) == Ok::<
                _,
                ParseError,
            >(b),
            Err(_) => true,
        },
{
    lemma_skip_ws_bounds(s, 0);
    let i = skip_ws(s, 0);
    if i < s.len() && s[i] == '[' {
        lemma_skip_ws_bounds(s, i + 1);
        let j = skip_ws(s, i + 1);
        if j < s.len() && s[j] != ']' {
            lemma_parse_pair_advances(s, j);
            lemma_parse_pair_wf(s, j);
            match parse_pair(s, j) {
                Ok((p0, j2)) => {
                    assert(wf_batch_text(seq![p0])) by {
                        assert(seq![p0][0] == p0);
                    }
                    lemma_parse_more_pairs_wf(s, j2, seq![p0]);
                },
                Err(_) => {},
            }
        } else {
            assert(wf_batch_text(Seq::<(Seq<char>, Seq<(int, int)>)>::empty()));
        }
    }
    match parse_orders_batch_text(s) {
        Ok(b) => {
            lemma_batch_round_trip(b);
        },
        Err(_) => {},
    }
}

/// A whole batch-elements text followed by its closing bracket parses back.
pub proof fn lemma_parse_pairs_of_ser(s: Seq<char>, i: int, b: Seq<(Seq<char>, Seq<(int, int)>)>)
    requires
        0 <= i,
        wf_batch_text(b),
        i + ser_pairs(b).len() + 1 <= s.len(),
        s.subrange(i, i + ser_pairs(b).len()) == ser_pairs(b),
        s[i + ser_pairs(b).len()] == ']',
    ensures
        parse_pairs(s, i) == Ok::<_, ParseError>((b, i + ser_pairs(b).len() + 1)),
{
    let t = ser_pairs(b);
    if b.len() == 0 {
        assert(s[i] == ']');
        assert(skip_ws(s, i) == i);
        assert(Seq::<(Seq<char>, Seq<(int, int)>)>::empty() =~= b);
    } else {
        lemma_ser_pairs_front(b);
        let p0 = ser_pair(b[0].0, b[0].1);
        let tail = b.drop_first();
        let mt = ser_more_pairs(tail);
        assert(t == p0 + mt);
        assert(forall|k: int| 0 <= k < p0.len() ==> #[trigger] p0[k] == t[k]);
        assert(forall|k: int| 0 <= k < mt.len() ==> #[trigger] mt[k] == t[p0.len() + k]);
        lemma_seq_at(s, i, t, 0);
        assert(s[i] == '{') by {
            reveal_strlit("{\"pair_receipt_address\":\"");
            assert(p0[0] == '{');
        }
        assert(skip_ws(s, i) == i);
        lemma_sub_at(s, i, t, 0, p0);
        assert(b[0].0.len() > 0 && (forall|k: int|
            0 <= k < b[0].0.len() ==> !is_quote(#[trigger] b[0].0[k]) && b[0].0[k] != '\\') && (
        forall|j: int|
            0 <= j < b[0].1.len() ==> 0 <= (#[trigger] b[0].1[j]).0 <= u64::MAX && 0 <= b[0].1[j].1
                <= i128::MAX));
        lemma_parse_pair_of_ser(s, i, b[0].0, b[0].1);
        let j = i + p0.len();
        assert(forall|k: int| 0 <= k < tail.len() ==> tail[k] == b[k + 1]);
        assert(wf_batch_text(tail));
        lemma_sub_at(s, i, t, p0.len() as int, mt);
        assert(s[j + mt.len() as int] == ']');
        lemma_parse_more_pairs_of_ser(s, j as int, seq![b[0]], tail);
        assert(seq![b[0]] + tail =~= b);
        assert((b[0].0, b[0].1) == b[0]);
    }
}

/// Round trip: the canonical text of a well-formed batch parses back to
/// exactly that batch.
pub proof fn lemma_batch_round_trip(b: Seq<(Seq<char>, Seq<(int, int)>)>)
    requires
        wf_batch_text(b),
    ensures
        parse_orders_batch_text(ser_batch(b)) == Ok::<_, ParseError>(b),
{
    let s = ser_batch(b);
    let ps = ser_pairs(b);
    assert(s == seq!['['] + ps + seq![']']);
    assert(s[0] == '[');
    assert(skip_ws(s, 0) == 0);
    assert(s.subrange(1, 1 + ps.len() as int) =~= ps);
    assert(s[1 + ps.len() as int] == ']');
    lemma_parse_pairs_of_ser(s, 1, b);
    assert(parse_pairs(s, 1) == Ok::<_, ParseError>((b, s.len() as int)));
    assert(skip_ws(s, s.len() as int) == s.len());
}

} // verus!
