//! Characters: the classes the lexer distinguishes, and the decoding of one
//! character from UTF-8 bytes.

use vstd::prelude::*;
use vstd::utf8::*;

verus! {

/// Whether a character has the Unicode property `White_Space`.
pub uninterp spec fn has_white_space_property(c: char) -> bool;

/// Whether a character has the Unicode property `Alphabetic`.
pub uninterp spec fn has_alphabetic_property(c: char) -> bool;

/// White space: among the ASCII characters the space and tab to carriage
/// return, and beyond them the characters with the property `White_Space`.
pub open spec fn is_white_space(c: char) -> bool {
    if c <= '\u{7f}' {
        c == ' ' || ('\t' <= c && c <= '\r')
    } else {
        has_white_space_property(c)
    }
}

/// Letters: among the ASCII characters `a` to `z` and `A` to `Z`, and beyond
/// them the characters with the property `Alphabetic`.
pub open spec fn is_letter(c: char) -> bool {
    if c <= '\u{7f}' {
        ('a' <= c && c <= 'z') || ('A' <= c && c <= 'Z')
    } else {
        has_alphabetic_property(c)
    }
}

/// The decimal digits `0` to `9`.
pub open spec fn is_decimal_digit(c: char) -> bool {
    '0' <= c && c <= '9'
}

/// `char::is_whitespace` answers by the Unicode property `White_Space`; among
/// the ASCII characters these are the space and U+0009 to U+000D.
pub assume_specification[ char::is_whitespace ](c: char) -> (r: bool)
    ensures
        r == is_white_space(c),
        c > '\u{7f}' ==> r == has_white_space_property(c),
;

/// `char::is_alphabetic` answers by the Unicode property `Alphabetic`; among
/// the ASCII characters these are the letters `a` to `z` and `A` to `Z`.
pub assume_specification[ char::is_alphabetic ](c: char) -> (r: bool)
    ensures
        r == is_letter(c),
        c > '\u{7f}' ==> r == has_alphabetic_property(c),
;

/// `char::is_digit` panics on a radix below 2 or above 36; in radix 10 the
/// digits are `0` to `9`.
pub assume_specification[ char::is_digit ](c: char, radix: u32) -> (r: bool)
    requires
        2 <= radix <= 36,
    ensures
        radix == 10 ==> r == is_decimal_digit(c),
;

/// `char::from_u32` returns the character with the given scalar value, and
/// `None` for a surrogate or a value above U+10FFFF.
pub assume_specification[ char::from_u32 ](value: u32) -> (r: Option<char>)
    ensures
        r == (if is_scalar(value) {
            Some(value as char)
        } else {
            None
        }),
;

/// `String::push` appends one character.
pub assume_specification[ std::string::String::push ](text: &mut String, c: char)
    ensures
        final(text)@ == old(text)@.push(c),
;

/// The number of bytes that the UTF-8 encoding of a character takes.
pub open spec fn utf8_len(c: char) -> int {
    if c <= '\u{7f}' {
        1
    } else if c <= '\u{7ff}' {
        2
    } else if c <= '\u{ffff}' {
        3
    } else {
        4
    }
}

/// The encoding of a character has as many bytes as `utf8_len` says.
pub proof fn lemma_utf8_len(c: char)
    ensures
        encode_scalar(c as u32).len() == utf8_len(c),
{
    char_is_scalar(c);
}

/// The bytes of `bytes` from `at` to the end.
pub open spec fn bytes_from(bytes: Seq<u8>, at: int) -> Seq<u8> {
    bytes.subrange(at, bytes.len() as int)
}

/// The bits of two bytes make a value of eleven bits at most.
proof fn lemma_two_byte_range(b0: u8, b1: u8)
    by (bit_vector)
    ensures
        (((b0 & 0x1F) as u32) << 6) | ((b1 & 0x3F) as u32) <= 0x7FF,
{
}

/// The bits of three bytes make a value of sixteen bits at most.
proof fn lemma_three_byte_range(b0: u8, b1: u8, b2: u8)
    by (bit_vector)
    ensures
        (((b0 & 0x0F) as u32) << 12) | (((b1 & 0x3F) as u32) << 6) | ((b2 & 0x3F) as u32)
            <= 0xFFFF,
{
}

/// Decodes the character whose encoding starts at byte `at`, and gives the
/// number of bytes that the encoding takes.
pub fn decode_char(bytes: &[u8], at: usize) -> (r: (char, usize))
    requires
        at < bytes@.len(),
        valid_utf8(bytes_from(bytes@, at as int)),
    ensures
        r.0 == decode_utf8(bytes_from(bytes@, at as int))[0],
        r.1 == utf8_len(r.0),
        1 <= r.1 <= 4,
        at + r.1 <= bytes@.len(),
        valid_utf8(bytes_from(bytes@, at + r.1)),
        decode_utf8(bytes_from(bytes@, at + r.1)) == decode_utf8(
            bytes_from(bytes@, at as int),
        ).drop_first(),
{
    let ghost tail = bytes_from(bytes@, at as int);
    proof {
        assert(valid_first_scalar(tail));
        assert(tail[0] == bytes@[at as int]);
        decode_utf8_first_scalar(tail);
        char_is_scalar(decode_first_scalar(tail) as char);
        assert(pop_first_scalar(tail) =~= bytes_from(
            bytes@,
            at + length_of_first_scalar(tail),
        ));
        assert(decode_utf8(tail).drop_first() =~= decode_utf8(pop_first_scalar(tail)));
    }
    let b0 = bytes[at];
    let (code, width): (u32, usize) = if b0 <= 0x7F {
        ((b0 & 0x7F) as u32, 1)
    } else if b0 <= 0xDF {
        proof {
            assert(tail[1] == bytes@[at + 1]);
            lemma_two_byte_range(b0, bytes@[at + 1]);
        }
        let b1 = bytes[at + 1];
        ((((b0 & 0x1F) as u32) << 6) | ((b1 & 0x3F) as u32), 2)
    } else if b0 <= 0xEF {
        proof {
            assert(tail[1] == bytes@[at + 1]);
            assert(tail[2] == bytes@[at + 2]);
            lemma_three_byte_range(b0, bytes@[at + 1], bytes@[at + 2]);
        }
        let b1 = bytes[at + 1];
        let b2 = bytes[at + 2];
        (
            (((b0 & 0x0F) as u32) << 12) | (((b1 & 0x3F) as u32) << 6) | ((b2 & 0x3F) as u32),
            3,
        )
    } else {
        proof {
            assert(tail[1] == bytes@[at + 1]);
            assert(tail[2] == bytes@[at + 2]);
            assert(tail[3] == bytes@[at + 3]);
        }
        let b1 = bytes[at + 1];
        let b2 = bytes[at + 2];
        let b3 = bytes[at + 3];
        (
            (((b0 & 0x07) as u32) << 18) | (((b1 & 0x3F) as u32) << 12) | (((b2 & 0x3F) as u32)
                << 6) | ((b3 & 0x3F) as u32),
            4,
        )
    };
    assert(code == decode_first_scalar(tail));
    assert(width == length_of_first_scalar(tail));
    assert(is_scalar(code));
    let decoded = char::from_u32(code);
    let c = decoded.unwrap();
    proof {
        assert(encode_scalar(c as u32) == take_first_scalar(tail));
        lemma_utf8_len(c);
    }
    (c, width)
}

/// Tells whether two texts hold the same characters.
pub fn same_text(a: &str, b: &str) -> (r: bool)
    ensures
        r == (a@ == b@),
{
    let x = a.as_bytes();
    let y = b.as_bytes();
    proof {
        encode_utf8_decode_utf8(a@);
        encode_utf8_decode_utf8(b@);
    }
    if x.len() != y.len() {
        return false;
    }
    let mut i: usize = 0;
    while i < x.len()
        invariant
            i <= x@.len(),
            x@.len() == y@.len(),
            x@ == encode_utf8(a@),
            y@ == encode_utf8(b@),
            forall|j: int| 0 <= j < i ==> x@[j] == y@[j],
        decreases x@.len() - i,
    {
        if x[i] != y[i] {
            return false;
        }
        i += 1;
    }
    assert(x@ =~= y@);
    true
}

/// Encoding a text and another after it gives the two encodings in a row.
pub proof fn lemma_encode_concat(a: Seq<char>, b: Seq<char>)
    ensures
        encode_utf8(a + b) == encode_utf8(a) + encode_utf8(b),
    decreases a.len(),
{
    if a.len() == 0 {
        assert(a + b =~= b);
        assert(encode_utf8(a) + encode_utf8(b) =~= encode_utf8(b));
    } else {
        lemma_encode_concat(a.drop_first(), b);
        assert((a + b).drop_first() =~= a.drop_first() + b);
        assert(encode_utf8(a + b) =~= encode_utf8(a) + encode_utf8(b));
    }
}

/// The encoding of a text is that of its first `n` characters followed by
/// that of the others.
pub proof fn lemma_encode_split(s: Seq<char>, n: int)
    requires
        0 <= n <= s.len(),
    ensures
        encode_utf8(s) == encode_utf8(s.take(n)) + encode_utf8(s.skip(n)),
        encode_utf8(s).len() == encode_utf8(s.take(n)).len() + encode_utf8(s.skip(n)).len(),
{
    assert(s =~= s.take(n) + s.skip(n));
    lemma_encode_concat(s.take(n), s.skip(n));
}

/// Each character takes one byte at least.
pub proof fn lemma_encode_len(s: Seq<char>)
    ensures
        encode_utf8(s).len() >= s.len(),
    decreases s.len(),
{
    if s.len() > 0 {
        lemma_encode_len(s.drop_first());
    }
}

/// Taking one character more adds that character's bytes.
pub proof fn lemma_encode_take_next(s: Seq<char>, n: int)
    requires
        0 <= n < s.len(),
    ensures
        encode_utf8(s.take(n + 1)).len() == encode_utf8(s.take(n)).len() + utf8_len(s[n]),
{
    let one = seq![s[n]];
    assert(s.take(n + 1) =~= s.take(n) + one);
    lemma_encode_concat(s.take(n), one);
    assert(one.drop_first() =~= Seq::<char>::empty());
    assert(encode_utf8(one) =~= encode_scalar(s[n] as u32)) by {
        reveal_with_fuel(encode_utf8, 2);
    }
    lemma_utf8_len(s[n]);
}

} // verus!
