//! The decimal form of a number: an optional sign, digits with an optional
//! point among them, and an optional exponent.
//!
//! A number is held as its decimal text. Among the texts made of digits,
//! points, signs and the letters `e` and `E`, these are the ones that the
//! standard conversion from text to a binary floating-point number accepts.

use vstd::prelude::*;
use vstd::string::*;
use vstd::utf8::*;
use crate::unicode::is_decimal_digit;

verus! {

/// A plus or a minus sign.
pub open spec fn is_sign(c: char) -> bool {
    c == '+' || c == '-'
}

/// The letter that opens an exponent.
pub open spec fn is_exponent_mark(c: char) -> bool {
    c == 'e' || c == 'E'
}

/// The text without its sign, if it starts with one.
pub open spec fn without_sign(s: Seq<char>) -> Seq<char> {
    if s.len() > 0 && is_sign(s[0]) {
        s.drop_first()
    } else {
        s
    }
}

/// The number of decimal digits that `s` starts with.
pub open spec fn digit_run(s: Seq<char>) -> nat
    decreases s.len(),
{
    if s.len() > 0 && is_decimal_digit(s[0]) {
        1 + digit_run(s.drop_first())
    } else {
        0
    }
}

/// An exponent: `e` or `E`, an optional sign, and one digit or more, up to the
/// end of `s`.
pub open spec fn is_exponent(s: Seq<char>) -> bool {
    let digits = without_sign(s.skip(1));
    &&& s.len() > 0
    &&& is_exponent_mark(s[0])
    &&& digits.len() > 0
    &&& digit_run(digits) == digits.len()
}

/// A decimal number: an optional sign; then digits, a point and digits, where
/// the point and either group of digits may be missing but not both groups;
/// then an optional exponent.
pub open spec fn is_decimal_number(s: Seq<char>) -> bool {
    let unsigned = without_sign(s);
    let whole = digit_run(unsigned);
    let after_whole = unsigned.skip(whole as int);
    let has_point = after_whole.len() > 0 && after_whole[0] == '.';
    let fraction = if has_point {
        digit_run(after_whole.drop_first())
    } else {
        0
    };
    let after_mantissa = if has_point {
        after_whole.skip(1 + fraction as int)
    } else {
        after_whole
    };
    &&& whole + fraction > 0
    &&& (after_mantissa.len() == 0 || is_exponent(after_mantissa))
}

/// A run of digits is no longer than the text it starts.
pub proof fn lemma_digit_run_bound(s: Seq<char>)
    ensures
        digit_run(s) <= s.len(),
    decreases s.len(),
{
    if s.len() > 0 && is_decimal_digit(s[0]) {
        lemma_digit_run_bound(s.drop_first());
    }
}

/// The bytes of an ASCII text, one for each character.
fn ascii_bytes(text: &str) -> (bytes: &[u8])
    requires
        is_ascii_chars(text@),
    ensures
        bytes@.len() == text@.len(),
        forall|i: int| 0 <= i < text@.len() ==> bytes@[i] == text@[i] as u8,
{
    proof {
        is_ascii_chars_encode_utf8(text@);
    }
    text.as_bytes()
}

/// Steps over a sign at `from`, if there is one.
fn skip_sign(bytes: &[u8], from: usize, Ghost(s): Ghost<Seq<char>>) -> (end: usize)
    requires
        from <= bytes@.len(),
        bytes@.len() == s.len(),
        is_ascii_chars(s),
        forall|i: int| 0 <= i < s.len() ==> bytes@[i] == s[i] as u8,
    ensures
        from <= end <= bytes@.len(),
        s.skip(end as int) == without_sign(s.skip(from as int)),
{
    let ghost t = s.skip(from as int);
    if from < bytes.len() && (bytes[from] == 0x2B || bytes[from] == 0x2D) {
        assert(t[0] == s[from as int]);
        assert(t.drop_first() =~= s.skip(from + 1));
        from + 1
    } else {
        proof {
            if from < bytes@.len() {
                assert(t[0] == s[from as int]);
            }
        }
        from
    }
}

/// Steps over the digits at `from`.
fn skip_digits(bytes: &[u8], from: usize, Ghost(s): Ghost<Seq<char>>) -> (end: usize)
    requires
        from <= bytes@.len(),
        bytes@.len() == s.len(),
        is_ascii_chars(s),
        forall|i: int| 0 <= i < s.len() ==> bytes@[i] == s[i] as u8,
    ensures
        from <= end <= bytes@.len(),
        end - from == digit_run(s.skip(from as int)),
        s.skip(end as int) == s.skip(from as int).skip(digit_run(s.skip(from as int)) as int),
{
    let mut end = from;
    while end < bytes.len() && bytes[end] >= 0x30 && bytes[end] <= 0x39
        invariant
            from <= end <= bytes@.len(),
            bytes@.len() == s.len(),
            is_ascii_chars(s),
            forall|i: int| 0 <= i < s.len() ==> bytes@[i] == s[i] as u8,
            digit_run(s.skip(from as int)) == (end - from) + digit_run(s.skip(end as int)),
        decreases bytes@.len() - end,
    {
        proof {
            let t = s.skip(end as int);
            assert(t[0] == s[end as int]);
            assert(is_decimal_digit(t[0]));
            assert(t.drop_first() =~= s.skip(end + 1));
        }
        end += 1;
    }
    proof {
        let t = s.skip(end as int);
        if end < bytes@.len() {
            assert(t[0] == s[end as int]);
            assert(!is_decimal_digit(t[0]));
        }
        assert(s.skip(end as int) =~= s.skip(from as int).skip(end - from));
    }
    end
}

/// Tells whether the bytes from `from` on are an exponent.
fn is_exponent_at(bytes: &[u8], from: usize, Ghost(s): Ghost<Seq<char>>) -> (r: bool)
    requires
        from < bytes@.len(),
        bytes@.len() == s.len(),
        is_ascii_chars(s),
        forall|i: int| 0 <= i < s.len() ==> bytes@[i] == s[i] as u8,
    ensures
        r == is_exponent(s.skip(from as int)),
{
    let ghost t = s.skip(from as int);
    assert(t[0] == s[from as int]);
    if !(bytes[from] == 0x65 || bytes[from] == 0x45) {
        return false;
    }
    let at = skip_sign(bytes, from + 1, Ghost(s));
    proof {
        assert(s.skip(from + 1) =~= t.skip(1));
        if t.len() > 1 {
            assert(t.skip(1)[0] == t[1]);
            assert(t.skip(1).drop_first() =~= t.skip(2));
        }
    }
    let end = skip_digits(bytes, at, Ghost(s));
    at < bytes.len() && end == bytes.len()
}

/// Tells whether `text` is a decimal number.
pub fn is_decimal_text(text: &str) -> (r: bool)
    ensures
        r == is_decimal_number(text@),
{
    if !text.is_ascii() {
        proof {
            lemma_decimal_number_is_ascii(text@);
        }
        return false;
    }
    let bytes = ascii_bytes(text);
    let ghost s = text@;
    let len = bytes.len();
    assert(s.skip(0) =~= s);
    let start = skip_sign(bytes, 0, Ghost(s));
    let whole_end = skip_digits(bytes, start, Ghost(s));
    let ghost after_whole = s.skip(whole_end as int);
    let has_point = whole_end < len && bytes[whole_end] == 0x2E;
    proof {
        if whole_end < len {
            assert(after_whole[0] == s[whole_end as int]);
        }
    }
    if has_point {
        assert(after_whole.drop_first() =~= s.skip(whole_end + 1));
        let mantissa_end = skip_digits(bytes, whole_end + 1, Ghost(s));
        assert(s.skip(mantissa_end as int) =~= after_whole.skip(mantissa_end - whole_end));
        if mantissa_end - start == 1 {
            false
        } else if mantissa_end == len {
            true
        } else {
            is_exponent_at(bytes, mantissa_end, Ghost(s))
        }
    } else {
        if whole_end == start {
            false
        } else if whole_end == len {
            true
        } else {
            is_exponent_at(bytes, whole_end, Ghost(s))
        }
    }
}

/// A decimal number holds ASCII characters only.
pub proof fn lemma_decimal_number_is_ascii(s: Seq<char>)
    requires
        !is_ascii_chars(s),
    ensures
        !is_decimal_number(s),
{
    let i = choose|i: int| 0 <= i < s.len() && !('\0' <= #[trigger] s[i] <= '\u{7f}');
    lemma_not_decimal_with(s, i);
}

/// A text that holds a character of no decimal number is not a decimal number.
pub proof fn lemma_not_decimal_with(s: Seq<char>, i: int)
    requires
        0 <= i < s.len(),
        !is_decimal_digit(s[i]),
        !is_sign(s[i]),
        !is_exponent_mark(s[i]),
        s[i] != '.',
    ensures
        !is_decimal_number(s),
{
    let unsigned = if s.len() > 0 && is_sign(s[0]) {
        s.drop_first()
    } else {
        s
    };
    let start = s.len() - unsigned.len();
    let whole = digit_run(unsigned);
    lemma_digit_run_bound(unsigned);
    lemma_digit_run_all_digits(unsigned);
    let after_whole = unsigned.skip(whole as int);
    let has_point = after_whole.len() > 0 && after_whole[0] == '.';
    let fraction = if has_point {
        digit_run(after_whole.drop_first())
    } else {
        0
    };
    if has_point {
        lemma_digit_run_bound(after_whole.drop_first());
        lemma_digit_run_all_digits(after_whole.drop_first());
    }
    let after_mantissa = if has_point {
        after_whole.skip(1 + fraction as int)
    } else {
        after_whole
    };
    let mantissa = s.len() - after_mantissa.len();
    if i < start {
    } else if i < start + whole {
        assert(unsigned[i - start] == s[i]);
    } else if i < mantissa {
        assert(has_point);
        if i == start + whole {
            assert(after_whole[0] == s[i]);
        } else {
            assert(after_whole.drop_first()[i - start - whole - 1] == s[i]);
        }
    } else {
        assert(after_mantissa.len() > 0);
        assert(after_mantissa[i - mantissa] == s[i]);
        if is_exponent(after_mantissa) {
            let digits = without_sign(after_mantissa.skip(1));
            lemma_digit_run_all_digits(digits);
            let d = after_mantissa.len() - digits.len();
            if i - mantissa >= d {
                assert(digits[i - mantissa - d] == s[i]);
            }
        }
    }
}

/// Each character within a run of digits is a digit.
pub proof fn lemma_digit_run_all_digits(s: Seq<char>)
    ensures
        forall|i: int| 0 <= i < digit_run(s) ==> is_decimal_digit(#[trigger] s[i]),
    decreases s.len(),
{
    lemma_digit_run_bound(s);
    if s.len() > 0 && is_decimal_digit(s[0]) {
        lemma_digit_run_all_digits(s.drop_first());
        lemma_digit_run_bound(s.drop_first());
        assert forall|i: int| 0 <= i < digit_run(s) implies is_decimal_digit(#[trigger] s[i]) by {
            if i > 0 {
                assert(s.drop_first()[i - 1] == s[i]);
            }
        }
    }
}

} // verus!
