//! Exact decimal timestamps with nanosecond resolution.
//!
//! A timestamp is a signed number of seconds written as a decimal numeral:
//! an optional sign, digits with an optional point among them, and an
//! optional exponent of ten. It is held as a whole number of nanoseconds;
//! what a numeral holds that is finer than a nanosecond is cut off. Sums and
//! the rounding to milliseconds are exact.

use vstd::prelude::*;
use vstd::arithmetic::div_mod::lemma_fundamental_div_mod_converse;
use vstd::slice::slice_subrange;
use crate::text::{find_char, first_index_of, to_chars, trim, trimmed};

verus! {

/// The digits after the point that a nanosecond resolves.
pub const NANO_DIGITS: usize = 9;

/// A position on a timeline, or a shift along it, in nanoseconds.
#[derive(Clone, Copy, Debug, PartialEq, Eq, Structural)]
pub struct Timestamp {
    pub nanos: i64,
}

/// Whether `c` is one of the ten decimal digits.
pub open spec fn is_digit(c: char) -> bool {
    '0' <= c && c <= '9'
}

/// The number that the decimal digit `c` stands for.
pub open spec fn digit_value(c: char) -> int {
    c as int - '0' as int
}

/// Whether every character of `s` is a decimal digit.
pub open spec fn all_digits(s: Seq<char>) -> bool {
    forall|i: int| 0 <= i < s.len() ==> is_digit(#[trigger] s[i])
}

/// The number written by the digits `s`, most significant first; zero for
/// the empty sequence.
pub open spec fn digits_value(s: Seq<char>) -> int
    decreases s.len(),
{
    if s.len() == 0 {
        0
    } else {
        digits_value(s.drop_last()) * 10 + digit_value(s.last())
    }
}

/// Ten to the power `n`.
pub open spec fn pow10(n: nat) -> int
    decreases n,
{
    if n == 0 {
        1
    } else {
        10 * pow10((n - 1) as nat)
    }
}

/// Whether a numeral starts with a sign.
pub open spec fn has_sign(s: Seq<char>) -> bool {
    s.len() > 0 && (s[0] == '-' || s[0] == '+')
}

/// The position of the letter that starts the exponent of an unsigned
/// numeral, or the numeral's length where it has no exponent.
pub open spec fn exponent_mark(body: Seq<char>) -> int {
    let lower = first_index_of(body, 'e');
    let upper = first_index_of(body, 'E');
    if lower <= upper {
        lower
    } else {
        upper
    }
}

/// The part of an unsigned numeral before its exponent: digits, with a
/// point among them or not.
pub open spec fn mantissa_part(body: Seq<char>) -> Seq<char> {
    body.take(exponent_mark(body))
}

/// What follows the letter that starts the exponent, or `None` where the
/// numeral has no exponent.
pub open spec fn exponent_part(body: Seq<char>) -> Option<Seq<char>> {
    if exponent_mark(body) < body.len() {
        Some(body.skip(exponent_mark(body) + 1))
    } else {
        None
    }
}

/// The digits of a mantissa before its point.
pub open spec fn whole_part(mantissa: Seq<char>) -> Seq<char> {
    mantissa.take(first_index_of(mantissa, '.'))
}

/// The digits of a mantissa after its point; empty where it has no point.
pub open spec fn fraction_part(mantissa: Seq<char>) -> Seq<char> {
    let dot = first_index_of(mantissa, '.');
    if dot < mantissa.len() {
        mantissa.skip(dot + 1)
    } else {
        Seq::empty()
    }
}

/// The whole number that the text of an exponent writes: an optional sign
/// and at least one digit. `None` for any other text.
pub open spec fn exponent_of(text: Seq<char>) -> Option<int> {
    let digits = if has_sign(text) {
        text.skip(1)
    } else {
        text
    };
    if digits.len() >= 1 && all_digits(digits) {
        if has_sign(text) && text[0] == '-' {
            Some(-digits_value(digits))
        } else {
            Some(digits_value(digits))
        }
    } else {
        None
    }
}

/// The exponent of an unsigned numeral: zero where it has none, and `None`
/// where what follows the letter is no whole number.
pub open spec fn exponent_value(body: Seq<char>) -> Option<int> {
    match exponent_part(body) {
        Some(text) => exponent_of(text),
        None => Some(0),
    }
}

/// The number written by the first `keep` digits of `digits` followed by
/// zeros without end; zero where `keep` is not positive.
///
/// This is the number written by `digits`, times ten to the power of
/// `keep` less their count, with what comes after the point cut off.
pub open spec fn leading_value(digits: Seq<char>, keep: int) -> int {
    if keep <= 0 {
        0
    } else if keep <= digits.len() {
        digits_value(digits.take(keep))
    } else {
        digits_value(digits) * pow10((keep - digits.len()) as nat)
    }
}

/// The nanoseconds that an unsigned numeral stands for, or `None` where the
/// text is no such numeral.
///
/// A numeral is a mantissa of digits, at least one, with a point before,
/// among or after them or with none, and after it an exponent or none: the
/// letter `e` or `E`, an optional sign, and digits, at least one. Its value
/// in seconds is the mantissa times ten to the exponent. In nanoseconds the
/// point stands nine places farther right, and the digits that are still
/// behind it there are cut off.
pub open spec fn magnitude_nanos(body: Seq<char>) -> Option<int> {
    let whole = whole_part(mantissa_part(body));
    let fraction = fraction_part(mantissa_part(body));
    if all_digits(whole) && all_digits(fraction) && whole.len() + fraction.len() >= 1 {
        match exponent_value(body) {
            Some(exponent) => Some(leading_value(whole + fraction, whole.len() + exponent + 9)),
            None => None,
        }
    } else {
        None
    }
}

/// The nanoseconds that a signed numeral stands for, or `None` where the
/// text is no numeral or its value does not fit in 64 bits.
pub open spec fn decimal_nanos(s: Seq<char>) -> Option<int> {
    let body = if has_sign(s) {
        s.skip(1)
    } else {
        s
    };
    match magnitude_nanos(body) {
        Some(magnitude) => {
            let value = if has_sign(s) && s[0] == '-' {
                -magnitude
            } else {
                magnitude
            };
            if i64::MIN <= value <= i64::MAX {
                Some(value)
            } else {
                None
            }
        },
        None => None,
    }
}

/// A number of nanoseconds divided by a million and rounded to the nearest
/// whole number, halves away from zero.
pub open spec fn round_to_millis(nanos: int) -> int {
    if nanos >= 0 {
        (nanos + 500_000) / 1_000_000
    } else {
        -((-nanos + 500_000) / 1_000_000)
    }
}

/// The smaller of two numbers.
pub open spec fn at_most(value: int, cap: int) -> int {
    if value <= cap {
        value
    } else {
        cap
    }
}

/// `value`, but no farther from zero than `cap`.
pub open spec fn within(value: int, cap: int) -> int {
    if value > cap {
        cap
    } else if value < -cap {
        -cap
    } else {
        value
    }
}

/// Reading one more digit multiplies the number read so far by ten and adds
/// the digit.
pub proof fn lemma_digits_value_step(s: Seq<char>, i: int)
    requires
        0 <= i < s.len(),
    ensures
        digits_value(s.take(i + 1)) == digits_value(s.take(i)) * 10 + digit_value(s[i]),
{
    assert(s.take(i + 1).drop_last() =~= s.take(i));
}

/// A run of `n` digits writes a number from zero up to, but not including,
/// ten to the `n`.
pub proof fn lemma_digits_value_bound(s: Seq<char>)
    requires
        all_digits(s),
    ensures
        0 <= digits_value(s) < pow10(s.len()),
    decreases s.len(),
{
    if s.len() > 0 {
        let front = s.drop_last();
        assert forall|i: int| 0 <= i < front.len() implies is_digit(#[trigger] front[i]) by {
            assert(front[i] == s[i]);
        }
        lemma_digits_value_bound(front);
        assert(is_digit(s[s.len() - 1]));
    }
}

/// The value of the decimal digit `c`, or `None` for any other character.
pub fn digit_of(c: char) -> (digit: Option<u64>)
    ensures
        digit == (if is_digit(c) {
            Some(digit_value(c) as u64)
        } else {
            None
        }),
{
    if '0' <= c && c <= '9' {
        Some(c as u64 - '0' as u64)
    } else {
        None
    }
}

/// Every power of ten is at least one.
pub proof fn lemma_pow10_positive(n: nat)
    ensures
        pow10(n) >= 1,
    decreases n,
{
    if n > 0 {
        lemma_pow10_positive((n - 1) as nat);
    }
}

/// Ten to the `a`, times ten to the `b`, is ten to their sum.
pub proof fn lemma_pow10_add(a: nat, b: nat)
    ensures
        pow10(a) * pow10(b) == pow10(a + b),
    decreases a,
{
    if a > 0 {
        lemma_pow10_add((a - 1) as nat, b);
        assert(pow10(a + b) == 10 * pow10((a + b - 1) as nat));
        assert((10 * pow10((a - 1) as nat)) * pow10(b) == 10 * (pow10((a - 1) as nat) * pow10(b)))
            by (nonlinear_arith);
    }
}

/// Digits put together are digits exactly where both parts are.
pub proof fn lemma_all_digits_concat(front: Seq<char>, back: Seq<char>)
    ensures
        all_digits(front + back) == (all_digits(front) && all_digits(back)),
{
    let joined = front + back;
    if all_digits(joined) {
        assert forall|i: int| 0 <= i < front.len() implies is_digit(#[trigger] front[i]) by {
            assert(joined[i] == front[i]);
        }
        assert forall|i: int| 0 <= i < back.len() implies is_digit(#[trigger] back[i]) by {
            assert(joined[front.len() + i] == back[i]);
        }
    }
}

/// A larger power of ten is no smaller.
pub proof fn lemma_pow10_monotone(a: nat, b: nat)
    requires
        a <= b,
    ensures
        pow10(a) <= pow10(b),
{
    lemma_pow10_add(a, (b - a) as nat);
    lemma_pow10_positive(a);
    lemma_pow10_positive((b - a) as nat);
    assert(pow10(a) <= pow10(a) * pow10((b - a) as nat)) by (nonlinear_arith)
        requires
            pow10(a) >= 1,
            pow10((b - a) as nat) >= 1,
    ;
}

/// Ten to the thirtieth, written out.
pub proof fn lemma_pow10_thirty()
    ensures
        pow10(30) == 1_000_000_000_000_000_000_000_000_000_000,
{
    assert(pow10(10) == 10_000_000_000) by {
        reveal_with_fuel(pow10, 11);
    }
    lemma_pow10_add(10, 10);
    lemma_pow10_add(20, 10);
}

/// What is kept of a run of digits is a number that is not negative.
pub proof fn lemma_leading_value_not_negative(digits: Seq<char>, keep: int)
    requires
        all_digits(digits),
    ensures
        leading_value(digits, keep) >= 0,
{
    if 0 < keep <= digits.len() {
        lemma_all_digits_concat(digits.take(keep), digits.skip(keep));
        assert(digits.take(keep) + digits.skip(keep) =~= digits);
        lemma_digits_value_bound(digits.take(keep));
    } else if keep > digits.len() {
        lemma_digits_value_bound(digits);
        lemma_pow10_positive((keep - digits.len()) as nat);
        assert(digits_value(digits) * pow10((keep - digits.len()) as nat) >= 0)
            by (nonlinear_arith)
            requires
                digits_value(digits) >= 0,
                pow10((keep - digits.len()) as nat) >= 1,
        ;
    }
}

/// The number written by two runs of digits put together is the number of
/// the first, times ten to the count of the second, plus the number of the
/// second.
pub proof fn lemma_digits_value_concat(front: Seq<char>, back: Seq<char>)
    ensures
        digits_value(front + back) == digits_value(front) * pow10(back.len()) + digits_value(
            back,
        ),
    decreases back.len(),
{
    let joined = front + back;
    if back.len() == 0 {
        assert(joined =~= front);
    } else {
        let shorter = back.drop_last();
        assert(joined.drop_last() =~= front + shorter);
        assert(joined.last() == back.last());
        lemma_digits_value_concat(front, shorter);
        assert((digits_value(front) * pow10(shorter.len()) + digits_value(shorter)) * 10
            == digits_value(front) * (10 * pow10(shorter.len())) + digits_value(shorter) * 10)
            by (nonlinear_arith);
    }
}

/// Keeping the first digits of a run cuts the number off: it is the number
/// written by all the digits, divided by ten to the count of those left
/// out, without the remainder.
pub proof fn lemma_leading_value_cuts_off(digits: Seq<char>, keep: int)
    requires
        all_digits(digits),
        0 <= keep <= digits.len(),
    ensures
        leading_value(digits, keep) == digits_value(digits) / pow10(
            (digits.len() - keep) as nat,
        ),
{
    let kept = digits.take(keep);
    let cut = digits.skip(keep);
    assert(kept + cut =~= digits);
    lemma_all_digits_concat(kept, cut);
    lemma_digits_value_concat(kept, cut);
    lemma_digits_value_bound(cut);
    lemma_pow10_positive(cut.len());
    lemma_fundamental_div_mod_converse(
        digits_value(digits),
        pow10(cut.len()),
        digits_value(kept),
        digits_value(cut),
    );
    if keep == 0 {
        assert(kept.len() == 0);
    }
}

/// A numeral without an exponent and with at most nine digits after its
/// point stands for its whole seconds and its fraction, each in
/// nanoseconds, and nothing is cut off.
pub proof fn lemma_plain_numeral(whole: Seq<char>, fraction: Seq<char>)
    requires
        all_digits(whole),
        all_digits(fraction),
        fraction.len() <= 9,
    ensures
        leading_value(whole + fraction, (whole.len() + 9) as int) == digits_value(whole)
            * 1_000_000_000
            + digits_value(fraction) * pow10((9 - fraction.len()) as nat),
{
    let missing = (9 - fraction.len()) as nat;
    lemma_digits_value_concat(whole, fraction);
    lemma_pow10_add(fraction.len(), missing);
    assert(pow10(9) == 1_000_000_000) by {
        reveal_with_fuel(pow10, 10);
    }
    assert((digits_value(whole) * pow10(fraction.len()) + digits_value(fraction)) * pow10(missing)
        == digits_value(whole) * (pow10(fraction.len()) * pow10(missing)) + digits_value(fraction)
        * pow10(missing)) by (nonlinear_arith);
    if missing == 0 {
        assert((whole + fraction).take((whole.len() + 9) as int) =~= whole + fraction);
    }
}

/// Where thirty or more zeros follow the digits, what is kept is zero if
/// the digits write zero, and at least ten to the thirtieth if they do not.
pub proof fn lemma_leading_value_far(digits: Seq<char>, keep: int)
    requires
        all_digits(digits),
        keep >= digits.len() + 30,
    ensures
        digits_value(digits) == 0 ==> leading_value(digits, keep) == 0,
        digits_value(digits) != 0 ==> leading_value(digits, keep)
            >= 1_000_000_000_000_000_000_000_000_000_000,
{
    let zeros = (keep - digits.len()) as nat;
    lemma_digits_value_bound(digits);
    lemma_pow10_thirty();
    lemma_pow10_monotone(30, zeros);
    if digits_value(digits) != 0 {
        assert(digits_value(digits) * pow10(zeros) >= pow10(zeros)) by (nonlinear_arith)
            requires
                digits_value(digits) >= 1,
                pow10(zeros) >= 1,
        ;
    } else {
        assert(digits_value(digits) * pow10(zeros) == 0) by (nonlinear_arith)
            requires
                digits_value(digits) == 0,
        ;
    }
}

/// Reads a run of digits, counting no further than `cap`.
///
/// Returns `None` where some character is no digit, and the smaller of the
/// number written and `cap` otherwise.
fn read_digits(digits: &[char], cap: u128) -> (value: Option<u128>)
    requires
        1 <= cap <= 1_000_000_000_000_000_000_000_000_000_000,
    ensures
        value == (if all_digits(digits@) {
            Some(at_most(digits_value(digits@), cap as int) as u128)
        } else {
            None
        }),
{
    let mut value: u128 = 0;
    let mut index: usize = 0;
    while index < digits.len()
        invariant
            index <= digits.len(),
            1 <= cap <= 1_000_000_000_000_000_000_000_000_000_000,
            all_digits(digits@.take(index as int)),
            value == at_most(digits_value(digits@.take(index as int)), cap as int),
        decreases digits.len() - index,
    {
        proof {
            lemma_digits_value_step(digits@, index as int);
            lemma_digits_value_bound(digits@.take(index as int));
        }
        match digit_of(digits[index]) {
            Some(digit) => {
                let next: u128 = value * 10 + digit as u128;
                value = if next <= cap {
                    next
                } else {
                    cap
                };
                assert forall|i: int| 0 <= i < index + 1 implies is_digit(
                    #[trigger] digits@.take(index + 1)[i],
                ) by {
                    if i < index {
                        assert(digits@.take(index as int)[i] == digits@[i]);
                    }
                }
                index += 1;
            },
            None => {
                assert(!is_digit(digits@[index as int]));
                return None;
            },
        }
    }
    assert(digits@.take(index as int) =~= digits@);
    Some(value)
}

/// Reads what is kept of a run of digits, counting no further than `cap`.
///
/// Returns `None` where some character is no digit, and otherwise the
/// smaller of `cap` and the number written by the first `keep` of the
/// digits followed by zeros without end.
fn read_leading(digits: &[char], keep: i128, cap: u128) -> (value: Option<u128>)
    requires
        1 <= cap <= 1_000_000_000_000_000_000_000_000_000_000,
    ensures
        value == (if all_digits(digits@) {
            Some(at_most(leading_value(digits@, keep as int), cap as int) as u128)
        } else {
            None
        }),
{
    let count = digits.len();
    if keep <= 0 {
        match read_digits(digits, cap) {
            Some(_) => Some(0),
            None => None,
        }
    } else if keep <= count as i128 {
        let kept = slice_subrange(digits, 0, keep as usize);
        let cut = slice_subrange(digits, keep as usize, count);
        proof {
            assert(kept@ + cut@ =~= digits@);
            assert(kept@ =~= digits@.take(keep as int));
            lemma_all_digits_concat(kept@, cut@);
        }
        match read_digits(kept, cap) {
            Some(value) => match read_digits(cut, cap) {
                Some(_) => Some(value),
                None => None,
            },
            None => None,
        }
    } else {
        match read_digits(digits, cap) {
            Some(written) => {
                let zeros: i128 = keep - count as i128;
                let ghost number = digits_value(digits@);
                let mut value: u128 = written;
                let mut added: i128 = 0;
                proof {
                    lemma_digits_value_bound(digits@);
                    assert(number * pow10(0) == number);
                }
                while added < zeros && 0 < value && value < cap
                    invariant
                        0 <= added <= zeros,
                        0 <= number,
                        1 <= cap <= 1_000_000_000_000_000_000_000_000_000_000,
                        value == at_most(number * pow10(added as nat), cap as int),
                    decreases zeros - added,
                {
                    proof {
                        assert(number * pow10((added + 1) as nat) == number * pow10(added as nat)
                            * 10) by (nonlinear_arith)
                            requires
                                pow10((added + 1) as nat) == 10 * pow10(added as nat),
                        ;
                    }
                    let next: u128 = value * 10;
                    value = if next <= cap {
                        next
                    } else {
                        cap
                    };
                    added += 1;
                }
                proof {
                    let reached = number * pow10(added as nat);
                    let whole = number * pow10(zeros as nat);
                    lemma_pow10_positive(added as nat);
                    lemma_pow10_monotone(added as nat, zeros as nat);
                    assert(reached <= whole) by (nonlinear_arith)
                        requires
                            reached == number * pow10(added as nat),
                            whole == number * pow10(zeros as nat),
                            0 <= number,
                            pow10(added as nat) <= pow10(zeros as nat),
                    ;
                    if added < zeros && value == 0 {
                        assert(number == 0) by (nonlinear_arith)
                            requires
                                number * pow10(added as nat) == 0,
                                0 <= number,
                                pow10(added as nat) >= 1,
                        ;
                        assert(whole == 0) by (nonlinear_arith)
                            requires
                                whole == number * pow10(zeros as nat),
                                number == 0,
                        ;
                    }
                }
                Some(value)
            },
            None => None,
        }
    }
}

/// Reads the whole number that the text of an exponent writes, counting no
/// farther from zero than ten to the thirtieth.
fn read_exponent(text: &[char]) -> (exponent: Option<i128>)
    ensures
        match exponent_of(text@) {
            Some(written) => exponent == Some(
                within(written, 1_000_000_000_000_000_000_000_000_000_000) as i128,
            ),
            None => exponent is None,
        },
{
    let signed = text.len() > 0 && (text[0] == '-' || text[0] == '+');
    let negative = signed && text[0] == '-';
    let digits = if signed {
        slice_subrange(text, 1, text.len())
    } else {
        slice_subrange(text, 0, text.len())
    };
    assert(digits@ =~= if has_sign(text@) {
        text@.skip(1)
    } else {
        text@
    });
    if digits.len() < 1 {
        return None;
    }
    proof {
        if all_digits(digits@) {
            lemma_digits_value_bound(digits@);
        }
    }
    match read_digits(digits, 1_000_000_000_000_000_000_000_000_000_000) {
        Some(size) => if negative {
            Some(-(size as i128))
        } else {
            Some(size as i128)
        },
        None => None,
    }
}

/// The digits of `whole` followed by those of `fraction`.
fn join_digits(whole: &[char], fraction: &[char]) -> (digits: Vec<char>)
    ensures
        digits@ == whole@ + fraction@,
{
    let mut digits: Vec<char> = Vec::new();
    let mut index: usize = 0;
    while index < whole.len()
        invariant
            index <= whole.len(),
            digits@ == whole@.take(index as int),
        decreases whole.len() - index,
    {
        digits.push(whole[index]);
        assert(digits@ =~= whole@.take(index + 1));
        index += 1;
    }
    assert(whole@.take(index as int) =~= whole@);
    index = 0;
    while index < fraction.len()
        invariant
            index <= fraction.len(),
            digits@ == whole@ + fraction@.take(index as int),
        decreases fraction.len() - index,
    {
        digits.push(fraction[index]);
        assert(digits@ =~= whole@ + fraction@.take(index + 1));
        index += 1;
    }
    assert(fraction@.take(index as int) =~= fraction@);
    digits
}

/// Reads an unsigned numeral, counting no further than one nanosecond more
/// than a negative timestamp can hold.
fn read_magnitude(body: &[char]) -> (magnitude: Option<u128>)
    ensures
        match magnitude_nanos(body@) {
            Some(nanos) => magnitude is Some && 0 <= nanos && (nanos <= 9_223_372_036_854_775_808
                ==> magnitude->0 == nanos) && (nanos > 9_223_372_036_854_775_808 ==> magnitude->0
                > 9_223_372_036_854_775_808),
            None => magnitude is None,
        },
{
    let lower = find_char(body, 'e');
    let upper = find_char(body, 'E');
    let mark = if lower <= upper {
        lower
    } else {
        upper
    };
    let mantissa = slice_subrange(body, 0, mark);
    assert(mantissa@ =~= mantissa_part(body@));
    let exponent: i128 = if mark < body.len() {
        let text = slice_subrange(body, mark + 1, body.len());
        assert(text@ =~= exponent_part(body@)->0);
        match read_exponent(text) {
            Some(exponent) => exponent,
            None => {
                return None;
            },
        }
    } else {
        0
    };
    let dot = find_char(mantissa, '.');
    let whole = slice_subrange(mantissa, 0, dot);
    let fraction = if dot < mantissa.len() {
        slice_subrange(mantissa, dot + 1, mantissa.len())
    } else {
        slice_subrange(mantissa, 0, 0)
    };
    assert(whole@ =~= whole_part(mantissa@));
    assert(fraction@ =~= fraction_part(mantissa@));
    let digits = join_digits(whole, fraction);
    if digits.len() < 1 {
        return None;
    }
    let keep: i128 = whole.len() as i128 + exponent + NANO_DIGITS as i128;
    proof {
        lemma_all_digits_concat(whole@, fraction@);
        if all_digits(digits@) {
            let written = exponent_value(body@)->0;
            let true_keep = whole@.len() + written + 9;
            lemma_leading_value_not_negative(digits@, true_keep);
            if written >= 1_000_000_000_000_000_000_000_000_000_000 {
                lemma_leading_value_far(digits@, true_keep);
                lemma_leading_value_far(digits@, keep as int);
            } else if written <= -1_000_000_000_000_000_000_000_000_000_000 {
                assert(true_keep <= 0);
                assert(keep <= 0);
            } else {
                assert(true_keep == keep);
            }
        }
    }
    read_leading(digits.as_slice(), keep, 9_223_372_036_854_775_809)
}

/// Reads a signed decimal numeral of seconds.
///
/// Returns the timestamp that the numeral stands for, and `None` where the
/// text is no numeral or its value does not fit in 64 bits of nanoseconds.
pub fn parse_decimal(text: &[char]) -> (result: Option<Timestamp>)
    ensures
        match decimal_nanos(text@) {
            Some(nanos) => result is Some && result->0.nanos == nanos,
            None => result is None,
        },
{
    let signed = text.len() > 0 && (text[0] == '-' || text[0] == '+');
    let negative = signed && text[0] == '-';
    let body = if signed {
        slice_subrange(text, 1, text.len())
    } else {
        slice_subrange(text, 0, text.len())
    };
    assert(body@ =~= if has_sign(text@) {
        text@.skip(1)
    } else {
        text@
    });
    match read_magnitude(body) {
        Some(magnitude) => {
            if negative {
                if magnitude <= 9_223_372_036_854_775_808 {
                    let wide: i128 = -(magnitude as i128);
                    Some(Timestamp { nanos: wide as i64 })
                } else {
                    None
                }
            } else {
                if magnitude <= 9_223_372_036_854_775_807 {
                    Some(Timestamp { nanos: magnitude as i64 })
                } else {
                    None
                }
            }
        },
        None => None,
    }
}

impl Timestamp {
    /// The start of the timeline.
    pub fn zero() -> (t: Timestamp)
        ensures
            t.nanos == 0,
    {
        Timestamp { nanos: 0 }
    }

    /// Reads a signed decimal numeral of seconds from a string.
    pub fn parse(text: &str) -> (result: Option<Timestamp>)
        ensures
            match decimal_nanos(text@) {
                Some(nanos) => result is Some && result->0.nanos == nanos,
                None => result is None,
            },
    {
        let chars = to_chars(text);
        parse_decimal(chars.as_slice())
    }

    /// Reads a signed decimal numeral of seconds from a line of input,
    /// without the white space around it.
    pub fn parse_line(line: &str) -> (result: Option<Timestamp>)
        ensures
            match decimal_nanos(trimmed(line@)) {
                Some(nanos) => result is Some && result->0.nanos == nanos,
                None => result is None,
            },
    {
        Timestamp::parse(trim(line))
    }

    /// The milliseconds nearest to this timestamp moved by `shift`, halves
    /// away from zero.
    pub fn shifted_millis(self, shift: Timestamp) -> (millis: i64)
        ensures
            millis == round_to_millis(self.nanos + shift.nanos),
    {
        let sum: i128 = self.nanos as i128 + shift.nanos as i128;
        if sum >= 0 {
            ((sum + 500_000) / 1_000_000) as i64
        } else {
            (-((-sum + 500_000) / 1_000_000)) as i64
        }
    }
}

/// Rounding to milliseconds gives a nearest whole millisecond, and of two
/// that are equally near the one farther from zero.
pub proof fn lemma_round_to_millis_nearest(nanos: int)
    ensures
        -500_000 <= nanos - round_to_millis(nanos) * 1_000_000 <= 500_000,
        nanos - round_to_millis(nanos) * 1_000_000 == 500_000 ==> nanos < 0,
        nanos - round_to_millis(nanos) * 1_000_000 == -500_000 ==> nanos > 0,
{
}

} // verus!
