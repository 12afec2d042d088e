//! Decimal integers and floating-point literals as they appear in a path
//! segment: what counts as one, and which number an integer denotes.

use vstd::prelude::*;
use vstd::string::StrSliceExecFns;
use vstd::string::StringSliceAdditionalSpecFns;
use vstd::utf8::is_ascii_chars;
use vstd::utf8::is_ascii_chars_encode_utf8;

verus! {

pub open spec fn is_digit(c: char) -> bool {
    '0' <= c <= '9'
}

pub open spec fn digit_value(c: char) -> int {
    c as int - 48
}

pub open spec fn is_sign(c: char) -> bool {
    c == '+' || c == '-'
}

/// 1 when the text opens with a sign, else 0.
pub open spec fn sign_len(s: Seq<char>) -> int {
    if s.len() > 0 && is_sign(s[0]) {
        1
    } else {
        0
    }
}

pub open spec fn all_digits(s: Seq<char>) -> bool {
    forall|i: int| 0 <= i < s.len() ==> is_digit(#[trigger] s[i])
}

/// The number that a run of decimal digits denotes, most significant digit first.
pub open spec fn decimal_value(s: Seq<char>) -> int
    decreases s.len(),
{
    if s.len() == 0 {
        0
    } else {
        decimal_value(s.drop_last()) * 10 + digit_value(s.last())
    }
}

/// The 64-bit signed integer that a text denotes: an optional `+` or `-`,
/// then one or more decimal digits and nothing else, the number within the
/// range of `i64`.
pub open spec fn int_value(s: Seq<char>) -> Option<i64> {
    let digits = s.skip(sign_len(s));
    let magnitude = decimal_value(digits);
    let value = if s.len() > 0 && s[0] == '-' {
        -magnitude
    } else {
        magnitude
    };
    if digits.len() > 0 && all_digits(digits) && i64::MIN <= value <= i64::MAX {
        Some(value as i64)
    } else {
        None
    }
}

/// Where the run of digits that starts at `from` ends.
pub open spec fn digit_run(s: Seq<char>, from: int) -> int
    decreases s.len() - from,
{
    if 0 <= from < s.len() && is_digit(s[from]) {
        digit_run(s, from + 1)
    } else {
        from
    }
}

/// `c` is the lower-case letter `letter` or its upper-case form.
pub open spec fn same_letter(c: char, letter: char) -> bool {
    c == letter || c as int == letter as int - 32
}

/// `inf`, `infinity` or `nan`, in any mix of upper and lower case.
pub open spec fn is_special_name(s: Seq<char>) -> bool {
    ||| (s.len() == 3 && same_letter(s[0], 'i') && same_letter(s[1], 'n') && same_letter(s[2], 'f'))
    ||| (s.len() == 3 && same_letter(s[0], 'n') && same_letter(s[1], 'a') && same_letter(s[2], 'n'))
    ||| (s.len() == 8 && same_letter(s[0], 'i') && same_letter(s[1], 'n') && same_letter(s[2], 'f')
        && same_letter(s[3], 'i') && same_letter(s[4], 'n') && same_letter(s[5], 'i')
        && same_letter(s[6], 't') && same_letter(s[7], 'y'))
}

/// From `at` to the end of the text stands an exponent: `e` or `E`, an
/// optional sign, then one or more digits.
pub open spec fn is_exponent_from(s: Seq<char>, at: int) -> bool {
    let digits = if at + 1 < s.len() && is_sign(s[at + 1]) {
        at + 2
    } else {
        at + 1
    };
    &&& 0 <= at < s.len()
    &&& same_letter(s[at], 'e')
    &&& digits < s.len()
    &&& digit_run(s, digits) == s.len()
}

/// From `start` to the end of the text stands a decimal number: digits with
/// at most one `.` among them, before it, behind it or both, at least one
/// digit in all, then an optional exponent.
pub open spec fn is_decimal_from(s: Seq<char>, start: int) -> bool {
    let int_end = digit_run(s, start);
    let has_point = int_end < s.len() && s[int_end] == '.';
    let frac_end = if has_point {
        digit_run(s, int_end + 1)
    } else {
        int_end
    };
    let digit_count = if has_point {
        frac_end - start - 1
    } else {
        int_end - start
    };
    digit_count > 0 && (frac_end == s.len() || is_exponent_from(s, frac_end))
}

/// Whether a text is a floating-point literal: an optional sign, then a
/// special name or a decimal number.
pub open spec fn is_float_literal(s: Seq<char>) -> bool {
    is_special_name(s.skip(sign_len(s))) || is_decimal_from(s, sign_len(s))
}

/// A run of digits lies within the text, holds digits only, and stops at
/// the first character that is none.
pub proof fn lemma_digit_run(s: Seq<char>, from: int)
    requires
        0 <= from <= s.len(),
    ensures
        from <= digit_run(s, from) <= s.len(),
        forall|j: int| from <= j < digit_run(s, from) ==> is_digit(#[trigger] s[j]),
        digit_run(s, from) < s.len() ==> !is_digit(s[digit_run(s, from)]),
    decreases s.len() - from,
{
    if from < s.len() && is_digit(s[from]) {
        lemma_digit_run(s, from + 1);
    }
}

/// A position that ends the digits which start at `from` is `digit_run(s, from)`.
pub proof fn lemma_digit_run_is(s: Seq<char>, from: int, to: int)
    requires
        0 <= from <= to <= s.len(),
        forall|j: int| from <= j < to ==> is_digit(#[trigger] s[j]),
        to < s.len() ==> !is_digit(s[to]),
    ensures
        digit_run(s, from) == to,
    decreases to - from,
{
    if from < to {
        lemma_digit_run_is(s, from + 1, to);
    }
}

/// A longer run of digits denotes no smaller a number than its beginning.
pub proof fn lemma_decimal_value_prefix(s: Seq<char>, k: int)
    requires
        all_digits(s),
        0 <= k <= s.len(),
    ensures
        0 <= decimal_value(s.take(k)) <= decimal_value(s),
    decreases s.len() - k,
{
    if k == s.len() {
        assert(s.take(k) =~= s);
        lemma_decimal_value_nonnegative(s);
    } else {
        lemma_decimal_value_prefix(s, k + 1);
        let longer = s.take(k + 1);
        assert(longer.drop_last() =~= s.take(k));
        assert(longer.last() == s[k]);
        assert(is_digit(s[k]));
        lemma_decimal_value_nonnegative(s.take(k));
    }
}

pub proof fn lemma_decimal_value_nonnegative(s: Seq<char>)
    requires
        all_digits(s),
    ensures
        0 <= decimal_value(s),
    decreases s.len(),
{
    if s.len() > 0 {
        assert(is_digit(s.last()));
        lemma_decimal_value_nonnegative(s.drop_last());
    }
}

/// Every text that denotes an integer is ASCII.
pub proof fn lemma_int_text_is_ascii(s: Seq<char>)
    requires
        int_value(s) is Some,
    ensures
        is_ascii_chars(s),
{
    let digits = s.skip(sign_len(s));
    assert forall|i: int| 0 <= i < s.len() implies '\0' <= #[trigger] s[i] <= '\u{7f}' by {
        if i >= sign_len(s) {
            assert(is_digit(digits[i - sign_len(s)]));
        }
    }
}

/// Every floating-point literal is ASCII.
pub proof fn lemma_float_literal_is_ascii(s: Seq<char>)
    requires
        is_float_literal(s),
    ensures
        is_ascii_chars(s),
{
    let start = sign_len(s);
    let body = s.skip(start);
    if is_special_name(body) {
        assert forall|i: int| 0 <= i < s.len() implies '\0' <= #[trigger] s[i] <= '\u{7f}' by {
            if i >= start {
                assert(s[i] == body[i - start]);
            }
        }
    } else {
        lemma_digit_run(s, start);
        let int_end = digit_run(s, start);
        let has_point = int_end < s.len() && s[int_end] == '.';
        if has_point {
            lemma_digit_run(s, int_end + 1);
        }
        let frac_end = if has_point {
            digit_run(s, int_end + 1)
        } else {
            int_end
        };
        if frac_end < s.len() {
            let digits = if frac_end + 1 < s.len() && is_sign(s[frac_end + 1]) {
                frac_end + 2
            } else {
                frac_end + 1
            };
            lemma_digit_run(s, digits);
        }
        assert forall|i: int| 0 <= i < s.len() implies '\0' <= #[trigger] s[i] <= '\u{7f}' by {
            if i < start {
            } else if i < int_end {
                assert(is_digit(s[i]));
            } else if i < frac_end {
                if i > int_end {
                    assert(is_digit(s[i]));
                }
            } else if i == frac_end {
            } else {
                let digits = if frac_end + 1 < s.len() && is_sign(s[frac_end + 1]) {
                    frac_end + 2
                } else {
                    frac_end + 1
                };
                if i >= digits {
                    assert(is_digit(s[i]));
                }
            }
        }
    }
}

/// The number of characters of an ASCII text.
fn ascii_len(text: &str) -> (n: usize)
    requires
        text.is_ascii(),
    ensures
        n == text@.len(),
{
    proof {
        is_ascii_chars_encode_utf8(text@);
    }
    text.as_bytes().len()
}

/// Reads a 64-bit signed decimal integer.
pub fn parse_int(text: &str) -> (parsed: Option<i64>)
    ensures
        parsed == int_value(text@),
{
    if !text.is_ascii() {
        proof {
            if int_value(text@) is Some {
                lemma_int_text_is_ascii(text@);
            }
        }
        return None;
    }
    let n = ascii_len(text);
    if n == 0 {
        return None;
    }
    let first = text.get_ascii(0);
    let negative = first == 45;
    let start: usize = if first == 43 || first == 45 {
        1
    } else {
        0
    };
    if start == n {
        return None;
    }
    let ghost digits = text@.skip(start as int);
    let mut acc: i128 = 0;
    let mut i: usize = start;
    while i < n
        invariant
            text.is_ascii(),
            n == text@.len(),
            start == sign_len(text@),
            negative == (text@[0] == '-'),
            start <= i <= n,
            digits == text@.skip(start as int),
            all_digits(digits.take(i - start)),
            acc == (if negative {
                -decimal_value(digits.take(i - start))
            } else {
                decimal_value(digits.take(i - start))
            }),
            i64::MIN <= acc <= i64::MAX,
        decreases n - i,
    {
        let b = text.get_ascii(i);
        let ghost shorter = digits.take(i - start);
        let ghost longer = digits.take(i + 1 - start);
        proof {
            assert(longer.drop_last() =~= shorter);
            assert(longer.last() == text@[i as int]);
        }
        if b < 48 || b > 57 {
            proof {
                assert(!is_digit(digits[i - start]));
            }
            return None;
        }
        let d: i128 = (b - 48) as i128;
        let next: i128 = if negative {
            acc * 10 - d
        } else {
            acc * 10 + d
        };
        if next < -9223372036854775808 || next > 9223372036854775807 {
            proof {
                if all_digits(digits) {
                    lemma_decimal_value_prefix(digits, i + 1 - start);
                }
            }
            return None;
        }
        proof {
            assert forall|j: int| 0 <= j < longer.len() implies is_digit(#[trigger] longer[j]) by {
                if j < shorter.len() {
                    assert(longer[j] == shorter[j]);
                }
            }
        }
        acc = next;
        i = i + 1;
    }
    proof {
        assert(digits.take(n - start) =~= digits);
    }
    Some(acc as i64)
}

/// Where the digits that start at `from` end.
fn scan_digits(text: &str, from: usize) -> (to: usize)
    requires
        text.is_ascii(),
        from <= text@.len(),
    ensures
        to == digit_run(text@, from as int),
        from <= to <= text@.len(),
{
    let n = ascii_len(text);
    let mut i: usize = from;
    while i < n
        invariant
            text.is_ascii(),
            n == text@.len(),
            from <= i <= n,
            forall|j: int| from <= j < i ==> is_digit(#[trigger] text@[j]),
        decreases n - i,
    {
        let b = text.get_ascii(i);
        if b < 48 || b > 57 {
            proof {
                lemma_digit_run_is(text@, from as int, i as int);
            }
            return i;
        }
        i = i + 1;
    }
    proof {
        lemma_digit_run_is(text@, from as int, i as int);
    }
    i
}

/// Whether the character at `at` is `letter` (a lower-case ASCII letter) in either case.
fn letter_at(text: &str, at: usize, letter: u8) -> (same: bool)
    requires
        text.is_ascii(),
        at < text@.len(),
        97 <= letter <= 122,
    ensures
        same == same_letter(text@[at as int], letter as char),
{
    let b = text.get_ascii(at);
    b == letter || b == letter - 32
}

/// Whether the text from `start` on is `inf`, `infinity` or `nan` in any case.
fn special_name_at(text: &str, start: usize) -> (special: bool)
    requires
        text.is_ascii(),
        start <= text@.len(),
    ensures
        special == is_special_name(text@.skip(start as int)),
{
    let n = ascii_len(text);
    let len = n - start;
    if len == 3 {
        (letter_at(text, start, 105) && letter_at(text, start + 1, 110) && letter_at(
            text,
            start + 2,
            102,
        )) || (letter_at(text, start, 110) && letter_at(text, start + 1, 97) && letter_at(
            text,
            start + 2,
            110,
        ))
    } else if len == 8 {
        letter_at(text, start, 105) && letter_at(text, start + 1, 110) && letter_at(
            text,
            start + 2,
            102,
        ) && letter_at(text, start + 3, 105) && letter_at(text, start + 4, 110) && letter_at(
            text,
            start + 5,
            105,
        ) && letter_at(text, start + 6, 116) && letter_at(text, start + 7, 121)
    } else {
        false
    }
}

/// Whether a text is a floating-point literal.
pub fn is_float_text(text: &str) -> (valid: bool)
    ensures
        valid == is_float_literal(text@),
{
    if !text.is_ascii() {
        proof {
            if is_float_literal(text@) {
                lemma_float_literal_is_ascii(text@);
            }
        }
        return false;
    }
    let n = ascii_len(text);
    let mut start: usize = 0;
    if n > 0 {
        let first = text.get_ascii(0);
        if first == 43 || first == 45 {
            start = 1;
        }
    }
    if special_name_at(text, start) {
        return true;
    }
    let int_end = scan_digits(text, start);
    let has_point = int_end < n && text.get_ascii(int_end) == 46;
    let frac_end = if has_point {
        scan_digits(text, int_end + 1)
    } else {
        int_end
    };
    let digit_count = if has_point {
        frac_end - start - 1
    } else {
        int_end - start
    };
    if digit_count == 0 {
        return false;
    }
    if frac_end == n {
        return true;
    }
    if !letter_at(text, frac_end, 101) {
        return false;
    }
    let mut digits = frac_end + 1;
    if digits < n {
        let b = text.get_ascii(digits);
        if b == 43 || b == 45 {
            digits = digits + 1;
        }
    }
    if digits >= n {
        return false;
    }
    scan_digits(text, digits) == n
}

} // verus!
