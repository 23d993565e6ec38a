//! Decoding of one line: `<key>;<value>`, the value in fixed point (tenths).

use vstd::prelude::*;
use vstd::slice::{slice_subrange, slice_to_vec};
use crate::aggregate::floor_div;

verus! {

/// The byte that separates a key from its value.
pub const SEPARATOR: u8 = 59;

/// The most digits a value may carry, so that its digits fit an `i32`.
pub const MAX_DIGITS: usize = 9;

/// Why a line was refused.
#[derive(Clone, Copy, Debug, PartialEq, Eq, Structural)]
pub enum ParseError {
    /// The line holds no `;`.
    MissingSeparator,
    /// What follows the first `;` is not `-`? digits `.` digits (at most nine digits).
    InvalidValue,
}

pub open spec fn is_digit(c: u8) -> bool {
    48 <= c && c <= 57
}

/// Number of ASCII digits in `s`.
pub open spec fn digit_count(s: Seq<u8>) -> nat
    decreases s.len(),
{
    if s.len() == 0 {
        0
    } else {
        digit_count(s.drop_last()) + if is_digit(s.last()) { 1nat } else { 0nat }
    }
}

/// The number that the digits of `s` spell, every other byte ignored.
pub open spec fn digits_value(s: Seq<u8>) -> nat
    decreases s.len(),
{
    if s.len() == 0 {
        0
    } else if is_digit(s.last()) {
        digits_value(s.drop_last()) * 10 + (s.last() - 48) as nat
    } else {
        digits_value(s.drop_last())
    }
}

/// The digits of `s` as a number, negated when `s` starts with `-`.
pub open spec fn signed_digits(s: Seq<u8>) -> int {
    if s.len() > 0 && s[0] == 45 {
        -(digits_value(s) as int)
    } else {
        digits_value(s) as int
    }
}

pub open spec fn pow10(n: nat) -> nat
    decreases n,
{
    if n == 0 {
        1
    } else {
        10 * pow10((n - 1) as nat)
    }
}

/// The body of a value (after an optional `-`): digits, one `.` at `d`, digits,
/// with at least one digit on each side.
pub open spec fn dot_split(b: Seq<u8>, d: int) -> bool {
    &&& 0 < d < b.len() - 1
    &&& b[d] == 46
    &&& forall|i: int| 0 <= i < b.len() && i != d ==> is_digit(#[trigger] b[i])
}

pub open spec fn is_negative(v: Seq<u8>) -> bool {
    v.len() > 0 && v[0] == 45
}

pub open spec fn value_body(v: Seq<u8>) -> Seq<u8> {
    if is_negative(v) {
        v.drop_first()
    } else {
        v
    }
}

/// A well-formed value: `-`? digits `.` digits, nine digits at most.
pub open spec fn value_ok(v: Seq<u8>) -> bool {
    &&& exists|d: int| dot_split(value_body(v), d)
    &&& value_body(v).len() <= MAX_DIGITS + 1
}

/// Number of digits after the point of a well-formed value.
pub open spec fn frac_digits(v: Seq<u8>) -> nat {
    let b = value_body(v);
    let d = choose|d: int| dot_split(b, d);
    (b.len() - 1 - d) as nat
}

/// `n / 10^f` rounded half up to tenths: `floor(n / 10^(f-1) + 1/2)` for `f >= 1`.
pub open spec fn round_to_tenths(n: int, f: nat) -> int {
    let p = pow10((f - 1) as nat) as int;
    (2 * n + p) / (2 * p)
}

/// The value in tenths.
pub open spec fn tenths_of(v: Seq<u8>) -> int {
    round_to_tenths(signed_digits(v), frac_digits(v))
}

/// Index of the first `;` in `s`, or `-1`.
pub open spec fn first_sep(s: Seq<u8>) -> int
    decreases s.len(),
{
    if s.len() == 0 {
        -1
    } else if s[0] == SEPARATOR {
        0
    } else if first_sep(s.drop_first()) < 0 {
        -1
    } else {
        first_sep(s.drop_first()) + 1
    }
}

/// One line (without its newline) decoded into its key and its value in tenths.
pub open spec fn parse_line(line: Seq<u8>) -> Result<(Seq<u8>, int), ParseError> {
    let d = first_sep(line);
    if d < 0 {
        Err(ParseError::MissingSeparator)
    } else if !value_ok(line.skip(d + 1)) {
        Err(ParseError::InvalidValue)
    } else {
        Ok((line.take(d), tenths_of(line.skip(d + 1))))
    }
}

proof fn lemma_digits_bound(s: Seq<u8>)
    ensures
        digits_value(s) < pow10(digit_count(s)),
    decreases s.len(),
{
    if s.len() > 0 {
        lemma_digits_bound(s.drop_last());
        let p = pow10(digit_count(s.drop_last()));
        if is_digit(s.last()) {
            assert(pow10(digit_count(s)) == 10 * p);
            assert(digits_value(s.drop_last()) * 10 + 9 < 10 * p) by (nonlinear_arith)
                requires
                    digits_value(s.drop_last()) < p,
            ;
        }
    }
}

proof fn lemma_pow10_mono(a: nat, b: nat)
    requires
        a <= b,
    ensures
        pow10(a) <= pow10(b),
    decreases b,
{
    if a < b {
        lemma_pow10_mono(a, (b - 1) as nat);
    }
}

/// Decodes the digits of `val`, negated when `val` starts with `-`; every
/// other byte (the decimal point) is skipped.
pub fn parsei32(val: &[u8]) -> (r: i32)
    requires
        digit_count(val@) <= MAX_DIGITS,
    ensures
        r as int == signed_digits(val@),
{
    let mut num: i32 = 0;
    let mut negative = false;
    let mut i: usize = 0;
    proof {
        lemma_digits_bound(val@);
        lemma_pow10_mono(digit_count(val@), 9);
        reveal_with_fuel(pow10, 10);
        assert(pow10(9) == 1_000_000_000);
    }
    while i < val.len()
        invariant
            i <= val.len(),
            digit_count(val@) <= MAX_DIGITS,
            digits_value(val@) < 1_000_000_000,
            num as int == digits_value(val@.take(i as int)),
            negative == (i > 0 && val@[0] == 45),
        decreases val.len() - i,
    {
        let c = val[i];
        proof {
            assert(val@.take(i as int + 1).drop_last() == val@.take(i as int));
            lemma_prefix_digits(val@, i as int + 1);
        }
        if i == 0 && c == 45 {
            negative = true;
        } else if 48 <= c && c <= 57 {
            num = num * 10 + (c - 48) as i32;
        }
        i = i + 1;
    }
    assert(val@.take(val.len() as int) == val@);
    if negative {
        -num
    } else {
        num
    }
}

/// The digits of a prefix spell at most the digits of the whole.
proof fn lemma_prefix_digits(s: Seq<u8>, k: int)
    requires
        0 <= k <= s.len(),
    ensures
        digits_value(s.take(k)) <= digits_value(s),
    decreases s.len() - k,
{
    if k < s.len() {
        lemma_prefix_digits(s, k + 1);
        assert(s.take(k + 1).drop_last() == s.take(k));
    } else {
        assert(s.take(k) == s);
    }
}


/// Number of bytes of `s` that are not ASCII digits.
pub open spec fn non_digit_count(s: Seq<u8>) -> nat
    decreases s.len(),
{
    if s.len() == 0 {
        0
    } else {
        non_digit_count(s.drop_last()) + if is_digit(s.last()) { 0nat } else { 1nat }
    }
}

proof fn lemma_count_sum(s: Seq<u8>)
    ensures
        digit_count(s) + non_digit_count(s) == s.len(),
    decreases s.len(),
{
    if s.len() > 0 {
        lemma_count_sum(s.drop_last());
    }
}

proof fn lemma_one_non_digit(s: Seq<u8>, i: int)
    requires
        0 <= i < s.len(),
        !is_digit(s[i]),
    ensures
        non_digit_count(s) >= 1,
    decreases s.len(),
{
    if i < s.len() - 1 {
        lemma_one_non_digit(s.drop_last(), i);
    }
}

proof fn lemma_two_non_digits(s: Seq<u8>, i: int, j: int)
    requires
        0 <= i < j < s.len(),
        !is_digit(s[i]),
        !is_digit(s[j]),
    ensures
        non_digit_count(s) >= 2,
    decreases s.len(),
{
    if j < s.len() - 1 {
        lemma_two_non_digits(s.drop_last(), i, j);
    } else {
        lemma_one_non_digit(s.drop_last(), i);
    }
}

proof fn lemma_dot_unique(b: Seq<u8>, d: int, e: int)
    requires
        dot_split(b, d),
        dot_split(b, e),
    ensures
        d == e,
{
    if d != e {
        assert(is_digit(b[e]));
    }
}

/// Index of the point in the body of a value, when the body is well formed.
fn check_body(b: &[u8]) -> (r: Option<usize>)
    ensures
        match r {
            Some(d) => dot_split(b@, d as int),
            None => forall|d: int| !dot_split(b@, d),
        },
{
    let mut dot: Option<usize> = None;
    let mut i: usize = 0;
    while i < b.len()
        invariant
            i <= b.len(),
            match dot {
                Some(d) => d < i && b@[d as int] == 46 && forall|j: int|
                    0 <= j < i && j != d ==> is_digit(#[trigger] b@[j]),
                None => forall|j: int| 0 <= j < i ==> is_digit(#[trigger] b@[j]),
            },
        decreases b.len() - i,
    {
        let c = b[i];
        if c == 46 {
            if let Some(d) = dot {
                assert(!is_digit(b@[d as int]) && !is_digit(b@[i as int]));
                assert forall|e: int| !dot_split(b@, e) by {
                    if dot_split(b@, e) {
                        assert(is_digit(b@[d as int]) || is_digit(b@[i as int]));
                    }
                }
                return None;
            }
            dot = Some(i);
        } else if c < 48 || c > 57 {
            assert forall|e: int| !dot_split(b@, e) by {
                if dot_split(b@, e) {
                    assert(is_digit(b@[i as int]));
                }
            }
            return None;
        }
        i = i + 1;
    }
    match dot {
        Some(d) => {
            if 0 < d && d + 1 < b.len() {
                Some(d)
            } else {
                assert forall|e: int| !dot_split(b@, e) by {
                    if dot_split(b@, e) {
                        if e != d {
                            assert(is_digit(b@[e]));
                        }
                    }
                }
                None
            }
        },
        None => {
            assert forall|e: int| !dot_split(b@, e) by {
                if dot_split(b@, e) {
                    assert(is_digit(b@[e]));
                }
            }
            None
        },
    }
}

/// `10^e`.
fn pow10_exec(e: usize) -> (r: i64)
    requires
        e <= 8,
    ensures
        r as int == pow10(e as nat),
        1 <= r <= 100_000_000,
{
    let mut p: i64 = 1;
    let mut k: usize = 0;
    proof {
        reveal_with_fuel(pow10, 9);
    }
    while k < e
        invariant
            k <= e <= 8,
            p as int == pow10(k as nat),
            pow10(8) == 100_000_000,
        decreases e - k,
    {
        proof {
            lemma_pow10_mono((k + 1) as nat, 8);
        }
        p = p * 10;
        k = k + 1;
    }
    proof {
        lemma_pow10_mono(0, k as nat);
        lemma_pow10_mono(k as nat, 8);
    }
    p
}

/// `n / 10^f` rounded half up to tenths.
fn round_tenths(n: i32, f: usize) -> (r: i32)
    requires
        1 <= f <= MAX_DIGITS,
        -1_000_000_000 < n < 1_000_000_000,
    ensures
        r as int == round_to_tenths(n as int, f as nat),
{
    let p = pow10_exec(f - 1);
    let num: i128 = 2 * (n as i128) + p as i128;
    let den: i128 = 2 * p as i128;
    let q = floor_div(num, den);
    proof {
        vstd::arithmetic::div_mod::lemma_fundamental_div_mod(num as int, den as int);
        assert(-2_100_000_000 < q < 2_100_000_000) by (nonlinear_arith)
            requires
                num as int == (den as int) * (q as int) + (num as int) % (den as int),
                0 <= (num as int) % (den as int) < den,
                2 <= den <= 200_000_000,
                -2_000_000_000 < num < 2_100_000_000,
        ;
    }
    q as i32
}

/// A value decoded into tenths, or `None` when it is not well formed.
fn parse_value(v: &[u8]) -> (r: Option<i32>)
    ensures
        match r {
            Some(t) => value_ok(v@) && t as int == tenths_of(v@),
            None => !value_ok(v@),
        },
{
    let start: usize = if v.len() > 0 && v[0] == 45 {
        1
    } else {
        0
    };
    let b = slice_subrange(v, start, v.len());
    assert(b@ == value_body(v@));
    if b.len() > MAX_DIGITS + 1 {
        return None;
    }
    match check_body(b) {
        None => None,
        Some(d) => {
            proof {
                lemma_count_sum(v@);
                if start == 1 {
                    assert(v@[d + 1] == b@[d as int]);
                    lemma_two_non_digits(v@, 0, d + 1);
                } else {
                    lemma_one_non_digit(v@, d as int);
                }
                lemma_digits_bound(v@);
                lemma_pow10_mono(digit_count(v@), 9);
                reveal_with_fuel(pow10, 10);
                assert(pow10(9) == 1_000_000_000);
                let e = choose|e: int| dot_split(b@, e);
                lemma_dot_unique(b@, d as int, e);
            }
            let n = parsei32(v);
            let f = b.len() - 1 - d;
            Some(round_tenths(n, f))
        },
    }
}

proof fn lemma_first_sep(s: Seq<u8>)
    ensures
        first_sep(s) < 0 ==> first_sep(s) == -1 && forall|j: int|
            0 <= j < s.len() ==> #[trigger] s[j] != SEPARATOR,
        first_sep(s) >= 0 ==> first_sep(s) < s.len() && s[first_sep(s)] == SEPARATOR && forall|
            j: int,
        | 0 <= j < first_sep(s) ==> #[trigger] s[j] != SEPARATOR,
    decreases s.len(),
{
    if s.len() > 0 {
        lemma_first_sep(s.drop_first());
        assert forall|j: int| 0 < j < s.len() implies s[j] == s.drop_first()[j - 1] by {}
    }
}

/// Index of the first `;` of `line`.
fn find_separator(line: &[u8]) -> (r: Option<usize>)
    ensures
        match r {
            Some(d) => first_sep(line@) == d && d < line@.len(),
            None => first_sep(line@) < 0,
        },
{
    proof {
        lemma_first_sep(line@);
    }
    let mut i: usize = 0;
    while i < line.len()
        invariant
            i <= line.len(),
            forall|j: int| 0 <= j < i ==> line@[j] != SEPARATOR,
        decreases line.len() - i,
    {
        if line[i] == SEPARATOR {
            proof {
                lemma_first_sep(line@);
                let f = first_sep(line@);
                assert(line@[i as int] == SEPARATOR);
                if f >= 0 && f < i {
                    assert(line@[f] != SEPARATOR);
                }
            }
            return Some(i);
        }
        i = i + 1;
    }
    None
}

/// Splits a line (without its newline) at its first `;` and decodes the value
/// in tenths, rounded half up when it carries more than one fractional digit.
pub fn parse(line: &[u8]) -> (r: Result<(Vec<u8>, i32), ParseError>)
    ensures
        match r {
            Ok((k, v)) => parse_line(line@) == Ok::<(Seq<u8>, int), ParseError>((k@, v as int)),
            Err(e) => parse_line(line@) == Err::<(Seq<u8>, int), ParseError>(e),
        },
{
    match split_line(line) {
        Ok((d, v)) => Ok((slice_to_vec(slice_subrange(line, 0, d)), v)),
        Err(e) => Err(e),
    }
}

/// The index of the separator and the value in tenths.
pub fn split_line(line: &[u8]) -> (r: Result<(usize, i32), ParseError>)
    ensures
        match r {
            Ok((d, v)) => d < line@.len() && parse_line(line@) == Ok::<(Seq<u8>, int), ParseError>(
                (line@.take(d as int), v as int),
            ),
            Err(e) => parse_line(line@) == Err::<(Seq<u8>, int), ParseError>(e),
        },
{
    proof {
        lemma_first_sep(line@);
    }
    match find_separator(line) {
        None => Err(ParseError::MissingSeparator),
        Some(d) => {
            let n = line.len();
            let v = slice_subrange(line, d + 1, n);
            assert(v@ == line@.skip(d + 1));
            match parse_value(v) {
                Some(t) => Ok((d, t)),
                None => Err(ParseError::InvalidValue),
            }
        },
    }
}

} // verus!
