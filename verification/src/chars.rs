//! Character decoding and classification.
//!
//! The pipeline stores text as bytes; token classification needs the first
//! character at a byte position. Decoding is done here, verified against
//! vstd's UTF-8 specification; the Unicode character classes are supplied by
//! the standard library behind named results.

use vstd::prelude::*;
use vstd::utf8::*;

verus! {

broadcast use vstd::utf8::char_u32_cast;

/// What `char::is_whitespace` returns: the `White_Space` Unicode property,
/// a function of the character alone.
pub uninterp spec fn unicode_whitespace(c: char) -> bool;

/// What `char::is_alphanumeric` returns: the `Alphabetic` Unicode property
/// or a general numeric category, a function of the character alone.
pub uninterp spec fn unicode_alphanumeric(c: char) -> bool;

/// Relies on `char::is_whitespace`: the result depends on the character alone.
#[verifier::external_body]
pub fn char_is_whitespace(c: char) -> (r: bool)
    ensures
        r == unicode_whitespace(c),
{
    c.is_whitespace()
}

/// Relies on `char::is_alphanumeric`: the result depends on the character alone.
#[verifier::external_body]
pub fn char_is_alphanumeric(c: char) -> (r: bool)
    ensures
        r == unicode_alphanumeric(c),
{
    c.is_alphanumeric()
}

/// Relies on `char::from_u32`: `Some` exactly when the value is a Unicode
/// scalar (at most `0x10ffff` and not a surrogate), and the returned
/// character casts back to the value.
#[verifier::external_body]
pub fn char_of_scalar(v: u32) -> (r: Option<char>)
    ensures
        r is Some <==> is_scalar(v),
        r matches Some(c) ==> c as u32 == v,
{
    char::from_u32(v)
}

/// The scalar value and byte width of the UTF-8 encoding that starts at
/// byte `pos`, or `None` when the bytes there are not a well-formed encoding.
pub open spec fn scalar_at(s: Seq<u8>, pos: int) -> Option<(u32, int)>
    recommends
        0 <= pos < s.len(),
{
    let suffix = s.subrange(pos, s.len() as int);
    if valid_first_scalar(suffix) {
        Some((decode_first_scalar(suffix), length_of_first_scalar(suffix)))
    } else {
        None
    }
}

/// The character that starts at byte `pos`, with the replacement character
/// standing in for a malformed encoding.
pub open spec fn char_at(s: Seq<u8>, pos: int) -> char
    recommends
        0 <= pos < s.len(),
{
    match scalar_at(s, pos) {
        Some((v, _)) => v as char,
        None => '\u{fffd}',
    }
}

/// The byte width consumed at `pos`: the width of the well-formed encoding
/// there, or a single byte when it is malformed.
pub open spec fn char_width_at(s: Seq<u8>, pos: int) -> int
    recommends
        0 <= pos < s.len(),
{
    match scalar_at(s, pos) {
        Some((_, w)) => w,
        None => 1,
    }
}

/// Decode the character at byte `pos`, total over arbitrary bytes: a
/// malformed encoding yields the replacement character, one byte wide.
pub fn decode_char_at(text: &[u8], pos: usize) -> (r: (char, usize))
    requires
        pos < text@.len(),
    ensures
        r.0 == char_at(text@, pos as int),
        r.1 == char_width_at(text@, pos as int),
        1 <= r.1,
        pos + r.1 <= text@.len(),
{
    let ghost suffix = text@.subrange(pos as int, text@.len() as int);
    let len = text.len();
    let b0 = text[pos];
    if b0 < 0x80 {
        // one-byte encoding: the byte is the scalar
        let v = b0 as u32;
        proof {
            assert(suffix[0] == b0);
            assert(valid_first_scalar(suffix));
            assert(length_of_first_scalar(suffix) == 1);
            assert(decode_first_scalar(suffix) == codepoint_width_1(b0));
            assert(codepoint_width_1(b0) == v) by (bit_vector)
                requires b0 < 0x80 && v == b0 as u32;
        }
        match char_of_scalar(v) {
            Some(c) => {
                    proof { vstd::utf8::char_u32_cast(c, v); }
                    (c, 1)
                },
            None => {
                proof {
                    assert(is_scalar(v));
                    assert(false);
                }
                ('\u{fffd}', 1)
            },
        }
    } else if b0 < 0xc0 {
        // a continuation byte cannot lead an encoding
        proof {
            assert(!valid_leading_and_continuation_bytes_first_codepoint(suffix));
        }
        ('\u{fffd}', 1)
    } else if b0 < 0xe0 {
        if len - pos > 1 && 0x80 <= text[pos + 1] && text[pos + 1] < 0xc0 {
            let b1 = text[pos + 1];
            let v = (((b0 & 0x1f) as u32) << 6u32) | ((b1 & 0x3f) as u32);
            proof {
                assert(suffix[0] == b0 && suffix[1] == b1);
                assert(v == codepoint_width_2(b0, b1));
                assert(v <= 0x7ff) by (bit_vector)
                    requires v == (((b0 & 0x1f) as u32) << 6u32) | ((b1 & 0x3f) as u32);
            }
            if v >= 0x80 {
                proof {
                    assert(valid_first_scalar(suffix));
                    assert(length_of_first_scalar(suffix) == 2);
                }
                match char_of_scalar(v) {
                    Some(c) => {
                    proof { vstd::utf8::char_u32_cast(c, v); }
                    (c, 2)
                },
                    None => {
                        proof {
                            assert(is_scalar(v));
                            assert(false);
                        }
                        ('\u{fffd}', 1)
                    },
                }
            } else {
                // overlong two-byte encoding
                proof {
                    assert(!valid_first_scalar(suffix));
                }
                ('\u{fffd}', 1)
            }
        } else {
            proof {
                assert(!valid_leading_and_continuation_bytes_first_codepoint(suffix));
            }
            ('\u{fffd}', 1)
        }
    } else if b0 < 0xf0 {
        if len - pos > 2 && 0x80 <= text[pos + 1] && text[pos + 1] < 0xc0 && 0x80 <= text[pos + 2]
            && text[pos + 2] < 0xc0 {
            let b1 = text[pos + 1];
            let b2 = text[pos + 2];
            let v = (((b0 & 0x0f) as u32) << 12u32) | (((b1 & 0x3f) as u32) << 6u32) | ((b2
                & 0x3f) as u32);
            proof {
                assert(suffix[0] == b0 && suffix[1] == b1 && suffix[2] == b2);
                assert(v == codepoint_width_3(b0, b1, b2));
                assert(v <= 0xffff) by (bit_vector)
                    requires v == (((b0 & 0x0f) as u32) << 12u32) | (((b1 & 0x3f) as u32) << 6u32)
                        | ((b2 & 0x3f) as u32);
            }
            if v >= 0x800 && !(0xd800 <= v && v <= 0xdfff) {
                proof {
                    assert(valid_first_scalar(suffix));
                    assert(length_of_first_scalar(suffix) == 3);
                }
                match char_of_scalar(v) {
                    Some(c) => {
                    proof { vstd::utf8::char_u32_cast(c, v); }
                    (c, 3)
                },
                    None => {
                        proof {
                            assert(is_scalar(v));
                            assert(false);
                        }
                        ('\u{fffd}', 1)
                    },
                }
            } else {
                proof {
                    assert(!valid_first_scalar(suffix));
                }
                ('\u{fffd}', 1)
            }
        } else {
            proof {
                assert(!valid_leading_and_continuation_bytes_first_codepoint(suffix));
            }
            ('\u{fffd}', 1)
        }
    } else if b0 < 0xf8 {
        if len - pos > 3 && 0x80 <= text[pos + 1] && text[pos + 1] < 0xc0 && 0x80 <= text[pos + 2]
            && text[pos + 2] < 0xc0 && 0x80 <= text[pos + 3] && text[pos + 3] < 0xc0 {
            let b1 = text[pos + 1];
            let b2 = text[pos + 2];
            let b3 = text[pos + 3];
            let v = (((b0 & 0x07) as u32) << 18u32) | (((b1 & 0x3f) as u32) << 12u32) | (((b2
                & 0x3f) as u32) << 6u32) | ((b3 & 0x3f) as u32);
            proof {
                assert(suffix[0] == b0 && suffix[1] == b1 && suffix[2] == b2 && suffix[3] == b3);
                assert(v == codepoint_width_4(b0, b1, b2, b3));
            }
            if 0x10000 <= v && v <= 0x10ffff {
                proof {
                    assert(valid_first_scalar(suffix));
                    assert(length_of_first_scalar(suffix) == 4);
                }
                match char_of_scalar(v) {
                    Some(c) => {
                    proof { vstd::utf8::char_u32_cast(c, v); }
                    (c, 4)
                },
                    None => {
                        proof {
                            assert(is_scalar(v));
                            assert(false);
                        }
                        ('\u{fffd}', 1)
                    },
                }
            } else {
                proof {
                    assert(!valid_first_scalar(suffix));
                }
                ('\u{fffd}', 1)
            }
        } else {
            proof {
                assert(!valid_leading_and_continuation_bytes_first_codepoint(suffix));
            }
            ('\u{fffd}', 1)
        }
    } else {
        proof {
            assert(!valid_leading_and_continuation_bytes_first_codepoint(suffix));
        }
        ('\u{fffd}', 1)
    }
}

} // verus!
