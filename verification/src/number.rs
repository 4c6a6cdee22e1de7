//! Decimal integer text and the number it denotes.
//!
//! The text of a number is read the way `str::parse::<i64>` reads it: an
//! optional sign, `+` or `-`, then one or more ASCII digits, and nothing else;
//! the number must fit in sixty-four bits.

use crate::scanner::is_digit_char;
use vstd::prelude::*;
use vstd::string::*;

verus! {

/// The byte of `+` in ASCII text.
pub const PLUS_SIGN: u8 = 43;

/// The byte of `-` in ASCII text.
pub const MINUS_SIGN: u8 = 45;

/// The byte of `0` in ASCII text.
pub const DIGIT_ZERO: u8 = 48;

/// The byte of `9` in ASCII text.
pub const DIGIT_NINE: u8 = 57;

/// The value of the digit `c`.
pub open spec fn digit_value(c: char) -> int {
    c as int - '0' as int
}

/// Every character of `s` is an ASCII digit.
pub open spec fn all_digits(s: Seq<char>) -> bool {
    forall|i: int| 0 <= i < s.len() ==> is_digit_char(#[trigger] s[i])
}

/// The number that the digits `s` denote in base ten, most significant digit
/// first.  Leading zeros are allowed and the empty sequence denotes zero.
pub open spec fn decimal(s: Seq<char>) -> int
    decreases s.len(),
{
    if s.len() == 0 {
        0
    } else {
        10 * decimal(s.drop_last()) + digit_value(s.last())
    }
}

/// `text` starts with a sign.
pub open spec fn has_sign(text: Seq<char>) -> bool {
    text.len() > 0 && (text[0] == '-' || text[0] == '+')
}

/// The part of `text` after its sign, if it has one.
pub open spec fn digits_of(text: Seq<char>) -> Seq<char> {
    if has_sign(text) {
        text.skip(1)
    } else {
        text
    }
}

/// The integer that `text` denotes, of any size; `None` where `text` is not
/// an optional sign followed by at least one digit.
pub open spec fn integer_of(text: Seq<char>) -> Option<int> {
    let digits = digits_of(text);
    if digits.len() == 0 || !all_digits(digits) {
        None
    } else if text[0] == '-' {
        Some(-decimal(digits))
    } else {
        Some(decimal(digits))
    }
}

/// The number that `text` denotes, where it denotes one that fits in `i64`.
pub open spec fn number_of(text: Seq<char>) -> Option<i64> {
    match integer_of(text) {
        Some(v) => if i64::MIN <= v <= i64::MAX {
            Some(v as i64)
        } else {
            None
        },
        None => None,
    }
}

/// Appending a digit multiplies by ten and adds the digit.
pub proof fn lemma_decimal_push(s: Seq<char>, c: char)
    ensures
        decimal(s.push(c)) == 10 * decimal(s) + digit_value(c),
{
    assert(s.push(c).drop_last() =~= s);
}

/// Digits denote a number that is not negative, and no prefix of them denotes
/// a larger one.
pub proof fn lemma_decimal_prefix(s: Seq<char>, k: int)
    requires
        all_digits(s),
        0 <= k <= s.len(),
    ensures
        0 <= decimal(s.take(k)) <= decimal(s),
    decreases s.len() - k,
{
    if k == s.len() {
        assert(s.take(k) =~= s);
        lemma_decimal_nonnegative(s);
    } else {
        lemma_decimal_prefix(s, k + 1);
        assert(s.take(k + 1).drop_last() =~= s.take(k));
        lemma_decimal_nonnegative(s.take(k));
    }
}

/// Digits denote a number that is not negative.
pub proof fn lemma_decimal_nonnegative(s: Seq<char>)
    requires
        all_digits(s),
    ensures
        0 <= decimal(s),
    decreases s.len(),
{
    if s.len() > 0 {
        lemma_decimal_nonnegative(s.drop_last());
    }
}

/// Reads `text` as a decimal integer: `Some` of the number where `text` is an
/// optional sign followed by digits that denote a number within `i64`, `None`
/// for any other text.
pub fn parse_number(text: &str) -> (value: Option<i64>)
    ensures
        value == number_of(text@),
{
    if !text.is_ascii() {
        proof {
            let i = choose|i: int| 0 <= i < text@.len() && !('\0' <= #[trigger] text@[i] <= '\u{7f}');
            let digits = digits_of(text@);
            if has_sign(text@) {
                assert(digits[i - 1] == text@[i]);
            }
        }
        return None;
    }
    let bytes = text.as_bytes();
    proof {
        is_ascii_spec_bytes(text);
    }
    let n = bytes.len();
    if n == 0 {
        return None;
    }
    let first = bytes[0];
    let negative = first == MINUS_SIGN;
    let start: usize = if first == MINUS_SIGN || first == PLUS_SIGN {
        1
    } else {
        0
    };
    let ghost digits = digits_of(text@);
    if start == n {
        return None;
    }
    let mut acc: i64 = 0;
    let mut k = start;
    while k < n
        invariant
            text.is_ascii(),
            bytes@ == text.spec_bytes(),
            n == text@.len(),
            digits == digits_of(text@),
            digits == text@.skip(start as int),
            start <= k <= n,
            all_digits(digits.take(k - start)),
            acc == -decimal(digits.take(k - start)),
        decreases n - k,
    {
        let b = bytes[k];
        let ghost c = text@[k as int];
        assert(digits[k - start] == c);
        if b < DIGIT_ZERO || b > DIGIT_NINE {
            return None;
        }
        let d: i64 = (b - DIGIT_ZERO) as i64;
        proof {
            let shorter = digits.take(k - start);
            let longer = digits.take(k - start + 1);
            assert(longer =~= shorter.push(c));
            lemma_decimal_push(shorter, c);
            if all_digits(digits) {
                lemma_decimal_prefix(digits, k - start + 1);
            }
        }
        let next = match acc.checked_mul(10) {
            Some(tenfold) => tenfold.checked_sub(d),
            None => None,
        };
        match next {
            Some(v) => {
                acc = v;
            },
            None => {
                return None;
            },
        }
        k += 1;
    }
    assert(digits.take(k - start) =~= digits);
    if negative {
        Some(acc)
    } else if acc == i64::MIN {
        None
    } else {
        Some(-acc)
    }
}

} // verus!
