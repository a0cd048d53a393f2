use vstd::prelude::*;

use crate::ast::NumberLiteral;
use crate::lexer::{normalize_chars, normalize_seq};
use crate::text::{chars_of, seq_starts_with, string_of};

verus! {

/// The value of `c` as a digit of `radix`, as `char::to_digit` gives it: `0`-`9`,
/// then the letters in either case from ten on.
pub open spec fn digit_value(c: char, radix: nat) -> Option<nat> {
    let v: int = if '0' <= c <= '9' {
        c as int - '0' as int
    } else if 'a' <= c <= 'z' {
        c as int - 'a' as int + 10
    } else if 'A' <= c <= 'Z' {
        c as int - 'A' as int + 10
    } else {
        36
    };
    if v < radix {
        Some(v as nat)
    } else {
        None
    }
}

/// Every character of `s` is a digit of `radix`.
pub open spec fn all_radix_digits(s: Seq<char>, radix: nat) -> bool {
    forall|i: int| 0 <= i < s.len() ==> (#[trigger] digit_value(s[i], radix)) is Some
}

/// The value of the digits `s` in `radix`, most significant first.
pub open spec fn radix_value(s: Seq<char>, radix: nat) -> nat
    decreases s.len(),
{
    if s.len() == 0 {
        0
    } else {
        radix_value(s.drop_last(), radix) * radix + match digit_value(s.last(), radix) {
            Some(d) => d,
            None => 0,
        }
    }
}

/// The digits of a signed integer text, after an optional `+` or `-`.
pub open spec fn signed_body(s: Seq<char>) -> Seq<char> {
    if s.len() > 0 && (s[0] == '+' || s[0] == '-') {
        s.drop_first()
    } else {
        s
    }
}

/// What `i64::from_str_radix` gives for `s`: an optional sign followed by one or
/// more digits of `radix` and nothing else, whose value fits in `i64`.
pub open spec fn spec_parse_i64(s: Seq<char>, radix: nat) -> Option<i64> {
    let body = signed_body(s);
    if body.len() > 0 && all_radix_digits(body, radix) {
        let v: int = if s[0] == '-' {
            -(radix_value(body, radix) as int)
        } else {
            radix_value(body, radix) as int
        };
        if i64::MIN <= v <= i64::MAX {
            Some(v as i64)
        } else {
            None
        }
    } else {
        None
    }
}

/// One more digit never makes the value smaller.
proof fn lemma_radix_value_prefix_monotone(s: Seq<char>, radix: nat, k: int, j: int)
    requires
        0 <= k <= j <= s.len(),
        radix >= 1,
    ensures
        radix_value(s.take(k), radix) <= radix_value(s.take(j), radix),
    decreases j - k,
{
    if k < j {
        lemma_radix_value_prefix_monotone(s, radix, k, j - 1);
        assert(s.take(j).drop_last() =~= s.take(j - 1));
        let a = radix_value(s.take(j - 1), radix);
        assert(a * radix >= a) by (nonlinear_arith)
            requires
                radix >= 1,
        ;
    }
}

/// The value of `c` as a digit of `radix`, or `None`.
fn char_digit(c: char, radix: u32) -> (r: Option<u32>)
    requires
        2 <= radix <= 36,
    ensures
        match digit_value(c, radix as nat) {
            Some(d) => r == Some(d as u32),
            None => r is None,
        },
{
    let v: u32 = if '0' <= c && c <= '9' {
        (c as u32) - ('0' as u32)
    } else if 'a' <= c && c <= 'z' {
        (c as u32) - ('a' as u32) + 10
    } else if 'A' <= c && c <= 'Z' {
        (c as u32) - ('A' as u32) + 10
    } else {
        36
    };
    if v < radix {
        Some(v)
    } else {
        None
    }
}

/// Parses `s` as `i64` in `radix` the way `i64::from_str_radix` does.
pub fn parse_i64_radix(s: &[char], radix: u32) -> (r: Option<i64>)
    requires
        2 <= radix <= 36,
    ensures
        r == spec_parse_i64(s@, radix as nat),
{
    let signed = s.len() > 0 && (s[0] == '+' || s[0] == '-');
    let negative = s.len() > 0 && s[0] == '-';
    let start: usize = if signed {
        1
    } else {
        0
    };
    let ghost body = signed_body(s@);
    assert(body =~= s@.skip(start as int));
    if start >= s.len() {
        return None;
    }
    // The magnitude read so far; it never goes past 2^63, the largest one that can fit.
    let limit: u64 = 0x8000_0000_0000_0000;
    let mut value: u64 = 0;
    let mut i: usize = start;
    while i < s.len()
        invariant
            start <= i <= s@.len(),
            body =~= s@.skip(start as int),
            body == signed_body(s@),
            body.len() > 0,
            2 <= radix <= 36,
            limit == 0x8000_0000_0000_0000u64,
            all_radix_digits(body.take(i - start), radix as nat),
            value == radix_value(body.take(i - start), radix as nat),
            value <= limit,
        decreases s@.len() - i,
    {
        let c = s[i];
        let d = match char_digit(c, radix) {
            Some(d) => d,
            None => {
                proof {
                    assert(body[i - start] == c);
                    assert(digit_value(body[i - start], radix as nat) is None);
                    assert(!all_radix_digits(body, radix as nat));
                }
                return None;
            },
        };
        proof {
            assert(body.take(i - start + 1).drop_last() =~= body.take(i - start));
            assert(body.take(i - start + 1).last() == c);
            assert forall|j: int| 0 <= j < i - start + 1 implies (#[trigger] digit_value(
                body.take(i - start + 1)[j],
                radix as nat,
            )) is Some by {
                if j < i - start {
                    assert(body.take(i - start + 1)[j] == body.take(i - start)[j]);
                }
            }
        }
        assert((value as u128) * (radix as u128) <= 0x8000_0000_0000_0000u128 * 36) by (nonlinear_arith)
            requires
                value <= 0x8000_0000_0000_0000u64,
                radix <= 36,
        ;
        let next: u128 = (value as u128) * (radix as u128) + (d as u128);
        assert(radix_value(body.take(i - start + 1), radix as nat) == next);
        if next > limit as u128 {
            proof {
                lemma_radix_value_prefix_monotone(body, radix as nat, i - start + 1, body.len() as int);
                assert(body.take(body.len() as int) =~= body);
            }
            return None;
        }
        value = next as u64;
        i += 1;
    }
    proof {
        assert(body.take(i - start) =~= body);
    }
    if negative {
        if value == limit {
            Some(i64::MIN)
        } else {
            Some(-(value as i64))
        }
    } else {
        if value == limit {
            None
        } else {
            Some(value as i64)
        }
    }
}

/// States of reading a floating-point text.
#[derive(Clone, Copy, PartialEq, Eq, Structural)]
pub enum FloatState {
    /// Before anything: a sign may come.
    Start,
    /// In the digits before the point.
    Whole,
    /// After the point.
    Fraction,
    /// Right after `e`/`E`: a sign may come.
    ExponentStart,
    /// After the exponent's sign.
    ExponentSign,
    /// In the exponent's digits.
    ExponentDigits,
}

/// Whether a state reads no character before moving on.
pub open spec fn float_state_rank(state: FloatState) -> int {
    match state {
        FloatState::Start | FloatState::ExponentStart => 1,
        _ => 0,
    }
}

/// Whether the rest of `s` from `i` completes a floating-point text, in `state`, having
/// seen a digit before the exponent (`digit`).
pub open spec fn float_from(s: Seq<char>, i: int, state: FloatState, digit: bool) -> bool
    decreases s.len() - i, float_state_rank(state),
{
    if i < 0 || i >= s.len() {
        match state {
            FloatState::Whole | FloatState::Fraction => digit,
            FloatState::ExponentDigits => true,
            _ => false,
        }
    } else {
        let c = s[i];
        match state {
            FloatState::Start => if c == '+' || c == '-' {
                float_from(s, i + 1, FloatState::Whole, digit)
            } else {
                float_from(s, i, FloatState::Whole, digit)
            },
            FloatState::Whole => if '0' <= c <= '9' {
                float_from(s, i + 1, FloatState::Whole, true)
            } else if c == '.' {
                float_from(s, i + 1, FloatState::Fraction, digit)
            } else if (c == 'e' || c == 'E') && digit {
                float_from(s, i + 1, FloatState::ExponentStart, digit)
            } else {
                false
            },
            FloatState::Fraction => if '0' <= c <= '9' {
                float_from(s, i + 1, FloatState::Fraction, true)
            } else if (c == 'e' || c == 'E') && digit {
                float_from(s, i + 1, FloatState::ExponentStart, digit)
            } else {
                false
            },
            FloatState::ExponentStart => if c == '+' || c == '-' {
                float_from(s, i + 1, FloatState::ExponentSign, digit)
            } else {
                float_from(s, i, FloatState::ExponentSign, digit)
            },
            FloatState::ExponentSign => if '0' <= c <= '9' {
                float_from(s, i + 1, FloatState::ExponentDigits, digit)
            } else {
                false
            },
            FloatState::ExponentDigits => if '0' <= c <= '9' {
                float_from(s, i + 1, FloatState::ExponentDigits, digit)
            } else {
                false
            },
        }
    }
}

/// Whether `f64::from_str` reads `s`, for a text with a decimal point: an optional sign,
/// digits with one `.` and at least one digit, then optionally `e` or `E`, an optional
/// sign and one or more digits.
pub open spec fn is_float_text(s: Seq<char>) -> bool {
    float_from(s, 0, FloatState::Start, false)
}


/// Whether `s` is a floating-point text `f64::from_str` reads, for a text with a point.
pub fn float_text(s: &[char]) -> (r: bool)
    ensures
        r == is_float_text(s@),
{
    let mut state = FloatState::Start;
    let mut digit = false;
    let mut i: usize = 0;
    while i < s.len()
        invariant
            i <= s@.len(),
            float_from(s@, i as int, state, digit) == is_float_text(s@),
        decreases s@.len() - i, float_state_rank(state),
    {
        let c = s[i];
        match state {
            FloatState::Start => {
                if c == '+' || c == '-' {
                    i += 1;
                }
                state = FloatState::Whole;
            },
            FloatState::Whole => {
                if '0' <= c && c <= '9' {
                    digit = true;
                    i += 1;
                } else if c == '.' {
                    state = FloatState::Fraction;
                    i += 1;
                } else if (c == 'e' || c == 'E') && digit {
                    state = FloatState::ExponentStart;
                    i += 1;
                } else {
                    return false;
                }
            },
            FloatState::Fraction => {
                if '0' <= c && c <= '9' {
                    digit = true;
                    i += 1;
                } else if (c == 'e' || c == 'E') && digit {
                    state = FloatState::ExponentStart;
                    i += 1;
                } else {
                    return false;
                }
            },
            FloatState::ExponentStart => {
                if c == '+' || c == '-' {
                    i += 1;
                }
                state = FloatState::ExponentSign;
            },
            FloatState::ExponentSign => {
                if '0' <= c && c <= '9' {
                    state = FloatState::ExponentDigits;
                    i += 1;
                } else {
                    return false;
                }
            },
            FloatState::ExponentDigits => {
                if '0' <= c && c <= '9' {
                    i += 1;
                } else {
                    return false;
                }
            },
        }
    }
    match state {
        FloatState::Whole | FloatState::Fraction => digit,
        FloatState::ExponentDigits => true,
        _ => false,
    }
}

/// A number as plain values: an integer, or the text of a decimal number.
pub enum NumberView {
    Integer(i64),
    Decimal(Seq<char>),
}

/// A number literal as plain values.
pub open spec fn number_view(n: NumberLiteral) -> NumberView {
    match n {
        NumberLiteral::Integer(v) => NumberView::Integer(v),
        NumberLiteral::Decimal(s) => NumberView::Decimal(s@),
    }
}

/// An optional integer as an optional number.
pub open spec fn integer_number(v: Option<i64>) -> Option<NumberView> {
    match v {
        Some(v) => Some(NumberView::Integer(v)),
        None => None,
    }
}

/// What reading a number written as `text` gives, after normalizing it to half-width:
/// `0x`, `0o` and `0b` prefixes read the rest as a hexadecimal, octal or binary integer;
/// a text with a `.` is a decimal number when `f64::from_str` reads it; anything else is
/// read as a decimal integer. Integers must fit in `i64`.
pub open spec fn spec_parse_number(text: Seq<char>) -> Option<NumberView> {
    let n = normalize_seq(text);
    if seq_starts_with(n, seq!['0', 'x']) {
        integer_number(spec_parse_i64(n.skip(2), 16))
    } else if seq_starts_with(n, seq!['0', 'o']) {
        integer_number(spec_parse_i64(n.skip(2), 8))
    } else if seq_starts_with(n, seq!['0', 'b']) {
        integer_number(spec_parse_i64(n.skip(2), 2))
    } else if n.contains('.') {
        if is_float_text(n) {
            Some(NumberView::Decimal(n))
        } else {
            None
        }
    } else {
        integer_number(spec_parse_i64(n, 10))
    }
}

/// Whether `s` starts with the two characters `a`, `b`.
fn starts_with_pair(s: &[char], a: char, b: char) -> (r: bool)
    ensures
        r == seq_starts_with(s@, seq![a, b]),
{
    let r = s.len() >= 2 && s[0] == a && s[1] == b;
    proof {
        if s@.len() >= 2 {
            assert(r == (s@.subrange(0, 2) =~= seq![a, b]));
        }
    }
    r
}

/// Whether `s` contains `c`.
fn contains_char(s: &[char], c: char) -> (r: bool)
    ensures
        r == s@.contains(c),
{
    let mut i: usize = 0;
    while i < s.len()
        invariant
            i <= s@.len(),
            forall|j: int| 0 <= j < i ==> s@[j] != c,
        decreases s@.len() - i,
    {
        if s[i] == c {
            return true;
        }
        i += 1;
    }
    false
}

/// The characters of `s` from `k` on.
fn tail(s: &[char], k: usize) -> (r: Vec<char>)
    requires
        k <= s@.len(),
    ensures
        r@ == s@.skip(k as int),
{
    let mut r: Vec<char> = Vec::new();
    let mut i: usize = k;
    while i < s.len()
        invariant
            k <= i <= s@.len(),
            r@ == s@.subrange(k as int, i as int),
        decreases s@.len() - i,
    {
        r.push(s[i]);
        proof {
            assert(s@.subrange(k as int, i + 1) =~= s@.subrange(k as int, i as int).push(s@[i as int]));
        }
        i += 1;
    }
    r
}

/// Reads a number written as `text`, as `spec_parse_number` describes.
pub fn parse_number(text: &str) -> (r: Option<NumberLiteral>)
    ensures
        match r {
            Some(n) => spec_parse_number(text@) == Some(number_view(n)),
            None => spec_parse_number(text@) is None,
        },
{
    let raw = chars_of(text);
    let n = normalize_chars(raw.as_slice());
    let radix: u32 = if starts_with_pair(n.as_slice(), '0', 'x') {
        16
    } else if starts_with_pair(n.as_slice(), '0', 'o') {
        8
    } else if starts_with_pair(n.as_slice(), '0', 'b') {
        2
    } else {
        10
    };
    if radix != 10 {
        let rest = tail(n.as_slice(), 2);
        return match parse_i64_radix(rest.as_slice(), radix) {
            Some(v) => Some(NumberLiteral::Integer(v)),
            None => None,
        };
    }
    if contains_char(n.as_slice(), '.') {
        if float_text(n.as_slice()) {
            Some(NumberLiteral::Decimal(string_of(n.as_slice())))
        } else {
            None
        }
    } else {
        match parse_i64_radix(n.as_slice(), 10) {
            Some(v) => Some(NumberLiteral::Integer(v)),
            None => None,
        }
    }
}

} // verus!
