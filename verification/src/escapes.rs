//! Escape processing for string literal content.
//!
//! The input is the text between the quotes. Backslash escapes are turned
//! into the bytes they denote; anything else passes through unchanged.

use vstd::prelude::*;
use vstd::utf8::{encode_scalar, is_scalar};

use crate::chars::{char_at, char_of_scalar, decode_char_at};
use crate::search::{find_byte_from, lemma_find_byte_from};

verus! {

/// The byte value of the backslash character.
pub const BACKSLASH: u8 = 92;

/// Why a `\u{...}` escape was rejected.
#[derive(Clone, Copy, Debug, PartialEq, Eq, Structural)]
pub enum UnicodeEscapeReason {
    /// No `{` follows the `u`.
    MissingBrace,
    /// The braces hold no digits, or more than six.
    BadDigitCount,
    /// A character between the braces is not a hexadecimal digit.
    BadHexDigit,
    /// The value is not a Unicode scalar.
    BadCodePoint,
}

/// A rejected escape sequence.
#[derive(Clone, Copy, Debug, PartialEq, Eq, Structural)]
pub enum EscapeError {
    /// A backslash followed by an unknown escape character, or by nothing.
    InvalidEscape { position: usize, escape: char },
    /// A malformed `\u{...}` escape.
    InvalidUnicodeEscape { position: usize, reason: UnicodeEscapeReason },
    /// A `\u{` with no closing `}`.
    UnterminatedUnicodeEscape { position: usize },
}

/// The value of one hexadecimal digit.
pub open spec fn hex_digit_val(b: u8) -> Option<int> {
    if 48 <= b && b <= 57 {
        Some((b - 48) as int)
    } else if 97 <= b && b <= 102 {
        Some((b - 87) as int)
    } else if 65 <= b && b <= 70 {
        Some((b - 55) as int)
    } else {
        None
    }
}

/// The value of a run of hexadecimal digits, most significant first.
pub open spec fn hex_seq_val(s: Seq<u8>) -> Option<int>
    decreases s.len(),
{
    if s.len() == 0 {
        Some(0)
    } else {
        match (hex_seq_val(s.drop_last()), hex_digit_val(s.last())) {
            (Some(prefix), Some(d)) => Some(prefix * 16 + d),
            _ => None,
        }
    }
}

/// The value of the digit run between the braces: one leading plus sign is
/// tolerated, as the decimal parser of the standard library tolerates it.
pub open spec fn hex_parse(s: Seq<u8>) -> Option<int> {
    if s.len() > 0 && s[0] == 43 {
        if s.len() == 1 {
            None
        } else {
            hex_seq_val(s.skip(1))
        }
    } else {
        hex_seq_val(s)
    }
}

/// The unescaped bytes of `s` from position `i` on, or the first error.
pub open spec fn unescape(s: Seq<u8>, i: int) -> Result<Seq<u8>, EscapeError>
    decreases s.len() - i when 0 <= i <= s.len() <= usize::MAX via unescape_dec
{
    if i >= s.len() {
        Ok(Seq::<u8>::empty())
    } else if s[i] != BACKSLASH {
        match unescape(s, i + 1) {
            Ok(rest) => Ok(seq![s[i]] + rest),
            Err(e) => Err(e),
        }
    } else if i + 1 >= s.len() {
        Err(EscapeError::InvalidEscape { position: i as usize, escape: '\\' })
    } else {
        let e = s[i + 1];
        if e == 34 || e == 92 {
            // \" and \\ stand for the character itself
            match unescape(s, i + 2) {
                Ok(rest) => Ok(seq![e] + rest),
                Err(er) => Err(er),
            }
        } else if e == 110 {
            match unescape(s, i + 2) {
                Ok(rest) => Ok(seq![10u8] + rest),
                Err(er) => Err(er),
            }
        } else if e == 114 {
            match unescape(s, i + 2) {
                Ok(rest) => Ok(seq![13u8] + rest),
                Err(er) => Err(er),
            }
        } else if e == 116 {
            match unescape(s, i + 2) {
                Ok(rest) => Ok(seq![9u8] + rest),
                Err(er) => Err(er),
            }
        } else if e == 48 {
            match unescape(s, i + 2) {
                Ok(rest) => Ok(seq![0u8] + rest),
                Err(er) => Err(er),
            }
        } else if e == 117 {
            // \u{...}
            if i + 2 >= s.len() || s[i + 2] != 123 {
                Err(
                    EscapeError::InvalidUnicodeEscape {
                        position: (i + 1) as usize,
                        reason: UnicodeEscapeReason::MissingBrace,
                    },
                )
            } else {
                match find_byte_from(s, 125, i + 3) {
                    None => Err(
                        EscapeError::UnterminatedUnicodeEscape { position: (i + 1) as usize },
                    ),
                    Some(j) => {
                        let digits = s.subrange(i + 3, j);
                        if digits.len() == 0 || digits.len() > 6 {
                            Err(
                                EscapeError::InvalidUnicodeEscape {
                                    position: (i + 1) as usize,
                                    reason: UnicodeEscapeReason::BadDigitCount,
                                },
                            )
                        } else {
                            match hex_parse(digits) {
                                None => Err(
                                    EscapeError::InvalidUnicodeEscape {
                                        position: (i + 1) as usize,
                                        reason: UnicodeEscapeReason::BadHexDigit,
                                    },
                                ),
                                Some(v) => {
                                    if is_scalar(v as u32) {
                                        match unescape(s, j + 1) {
                                            Ok(rest) => Ok(encode_scalar(v as u32) + rest),
                                            Err(er) => Err(er),
                                        }
                                    } else {
                                        Err(
                                            EscapeError::InvalidUnicodeEscape {
                                                position: (i + 1) as usize,
                                                reason: UnicodeEscapeReason::BadCodePoint,
                                            },
                                        )
                                    }
                                },
                            }
                        }
                    },
                }
            }
        } else {
            Err(
                EscapeError::InvalidEscape {
                    position: i as usize,
                    escape: char_at(s, i + 1),
                },
            )
        }
    }
}

#[via_fn]
proof fn unescape_dec(s: Seq<u8>, i: int) {
    if i < s.len() && s[i] == BACKSLASH && i + 1 < s.len() && s[i + 1] == 117 && i + 2 < s.len()
        && s[i + 2] == 123 {
        lemma_find_byte_from(s, 125, i + 3);
    }
}

/// The value of one hexadecimal digit.
fn hex_digit_val_exec(b: u8) -> (r: Option<u8>)
    ensures
        r is Some <==> hex_digit_val(b) is Some,
        r matches Some(d) ==> Some(d as int) == hex_digit_val(b),
{
    if 48 <= b && b <= 57 {
        Some(b - 48)
    } else if 97 <= b && b <= 102 {
        Some(b - 87)
    } else if 65 <= b && b <= 70 {
        Some(b - 55)
    } else {
        None
    }
}

/// Parse the digit run between the braces.
fn hex_parse_exec(s: &[u8], from: usize, to: usize) -> (r: Option<u32>)
    requires
        from <= to <= s@.len(),
        to - from <= 7,
    ensures
        r is Some <==> hex_parse(s@.subrange(from as int, to as int)) is Some,
        r matches Some(v) ==> Some(v as int) == hex_parse(s@.subrange(from as int, to as int)),
{
    let ghost digits = s@.subrange(from as int, to as int);
    proof {
        assert(digits.len() == to - from);
    }
    let mut start = from;
    if to > from && s[from] == 43 {
        proof {
            assert(digits[0] == s@[from as int]);
        }
        if to - from == 1 {
            return None;
        }
        start = from + 1;
        proof {
            assert(digits.len() > 0 && digits[0] == 43);
            assert(digits.skip(1) =~= s@.subrange(start as int, to as int));
        }
    } else {
        proof {
            assert(digits =~= s@.subrange(start as int, to as int));
        }
    }
    let ghost run = s@.subrange(start as int, to as int);
    let mut v: u32 = 0;
    let mut k = start;
    while k < to
        invariant
            from <= start <= k <= to <= s@.len(),
            to - start <= 7,
            run == s@.subrange(start as int, to as int),
            hex_parse(s@.subrange(from as int, to as int)) == hex_seq_val(run),
            Some(v as int) == hex_seq_val(s@.subrange(start as int, k as int)),
            v < 0x10000000,
        decreases to - k,
    {
        let d = match hex_digit_val_exec(s[k]) {
            Some(d) => d,
            None => {
                proof {
                    let part = s@.subrange(start as int, k as int + 1);
                    assert(part.drop_last() =~= s@.subrange(start as int, k as int));
                    assert(part.last() == s@[k as int]);
                    lemma_hex_prefix_none(s@, start as int, k as int + 1, to as int);
                }
                return None;
            },
        };
        proof {
            let part = s@.subrange(start as int, k as int + 1);
            assert(part.drop_last() =~= s@.subrange(start as int, k as int));
            assert(part.last() == s@[k as int]);
        }
        proof {
            lemma_hex_len_bound(s@.subrange(start as int, k as int + 1));
            lemma_pow16_le((k + 1 - start) as nat, 7);
            assert(pow16(7) == 0x10000000) by {
                reveal_with_fuel(pow16, 8);
            }
        }
        v = v * 16 + (d as u32);
        k = k + 1;
    }
    proof {
        assert(s@.subrange(start as int, k as int) =~= run);
    }
    Some(v)
}

/// A run with a bad digit anywhere has no value.
proof fn lemma_hex_prefix_none(s: Seq<u8>, start: int, bad_end: int, to: int)
    requires
        0 <= start <= bad_end <= to <= s.len(),
        bad_end >= start + 1,
        hex_digit_val(s[bad_end - 1]) is None,
    ensures
        hex_seq_val(s.subrange(start, to)) is None,
    decreases to - bad_end,
{
    if to == bad_end {
        let part = s.subrange(start, to);
        assert(part.last() == s[bad_end - 1]);
    } else {
        lemma_hex_prefix_none(s, start, bad_end, to - 1);
        let part = s.subrange(start, to);
        assert(part.drop_last() =~= s.subrange(start, to - 1));
    }
}

/// Sixteen to the `n`.
pub open spec fn pow16(n: nat) -> int
    decreases n,
{
    if n == 0 {
        1
    } else {
        16 * pow16((n - 1) as nat)
    }
}

proof fn lemma_pow16_le(a: nat, b: nat)
    requires
        a <= b,
    ensures
        pow16(a) <= pow16(b),
    decreases b,
{
    if a < b {
        lemma_pow16_le(a, (b - 1) as nat);
        lemma_pow16_pos((b - 1) as nat);
    }
}

proof fn lemma_pow16_pos(n: nat)
    ensures
        pow16(n) >= 1,
    decreases n,
{
    if n > 0 {
        lemma_pow16_pos((n - 1) as nat);
    }
}

/// A run of `n` digits stays below `16^n`.
proof fn lemma_hex_len_bound(s: Seq<u8>)
    ensures
        ({
            match hex_seq_val(s) {
                Some(v) => 0 <= v < pow16(s.len() as nat),
                None => true,
            }
        }),
    decreases s.len(),
{
    if s.len() > 0 {
        lemma_hex_len_bound(s.drop_last());
    }
}

/// Encode a Unicode scalar as UTF-8 bytes.
fn encode_scalar_exec(v: u32) -> (r: Vec<u8>)
    requires
        is_scalar(v),
    ensures
        r@ == encode_scalar(v),
{
    let mut out: Vec<u8> = Vec::new();
    if v <= 0x7f {
        out.push((v & 0x7f) as u8);
        proof {
            assert(out@ =~= encode_scalar(v));
        }
    } else if v <= 0x7ff {
        out.push(0xc0u8 | (((v >> 6u32) & 0x1f) as u8));
        out.push(0x80u8 | ((v & 0x3f) as u8));
        proof {
            assert(out@ =~= encode_scalar(v));
        }
    } else if v <= 0xffff {
        out.push(0xe0u8 | (((v >> 12u32) & 0x0f) as u8));
        out.push(0x80u8 | (((v >> 6u32) & 0x3f) as u8));
        out.push(0x80u8 | ((v & 0x3f) as u8));
        proof {
            assert(out@ =~= encode_scalar(v));
        }
    } else {
        out.push(0xf0u8 | (((v >> 18u32) & 0x07) as u8));
        out.push(0x80u8 | (((v >> 12u32) & 0x3f) as u8));
        out.push(0x80u8 | (((v >> 6u32) & 0x3f) as u8));
        out.push(0x80u8 | ((v & 0x3f) as u8));
        proof {
            assert(out@ =~= encode_scalar(v));
        }
    }
    out
}

/// Process the escape sequences of a string literal body.
///
/// Returns the bytes with every escape replaced by what it denotes, or the
/// first error: exactly the walk that `unescape` describes.
pub fn process_escape_sequences(s: &[u8]) -> (r: Result<Vec<u8>, EscapeError>)
    ensures
        ({
            match r {
                Ok(v) => unescape(s@, 0) == Ok::<Seq<u8>, EscapeError>(v@),
                Err(e) => unescape(s@, 0) == Err::<Seq<u8>, EscapeError>(e),
            }
        }),
{
    let n = s.len();
    let mut out: Vec<u8> = Vec::new();
    let mut i: usize = 0;
    while i < n
        invariant
            0 <= i <= n,
            n == s@.len(),
            ({
                match unescape(s@, i as int) {
                    Ok(rest) => unescape(s@, 0) == Ok::<Seq<u8>, EscapeError>(out@ + rest),
                    Err(e) => unescape(s@, 0) == Err::<Seq<u8>, EscapeError>(e),
                }
            }),
        decreases n - i,
    {
        let ghost old_out = out@;
        let ghost old_i = i as int;
        let b = s[i];
        if b != BACKSLASH {
            out.push(b);
            i = i + 1;
        } else if i + 1 >= n {
            return Err(EscapeError::InvalidEscape { position: i, escape: '\\' });
        } else {
            let e = s[i + 1];
            if e == 34 || e == 92 {
                out.push(e);
                i = i + 2;
            } else if e == 110 {
                out.push(10);
                i = i + 2;
            } else if e == 114 {
                out.push(13);
                i = i + 2;
            } else if e == 116 {
                out.push(9);
                i = i + 2;
            } else if e == 48 {
                out.push(0);
                i = i + 2;
            } else if e == 117 {
                if i + 2 >= n || s[i + 2] != 123 {
                    return Err(
                        EscapeError::InvalidUnicodeEscape {
                            position: i + 1,
                            reason: UnicodeEscapeReason::MissingBrace,
                        },
                    );
                }
                let tail = vstd::slice::slice_subrange(s, i + 3, n);
                let found = crate::search::memchr_find(125, tail);
                proof {
                    crate::source_map::lemma_find_byte_suffix(s@, 125, i as int + 3, 0);
                }
                match found {
                    None => {
                        return Err(
                            EscapeError::UnterminatedUnicodeEscape { position: i + 1 },
                        );
                    },
                    Some(off) => {
                        proof {
                            lemma_find_byte_from(tail@, 125, 0);
                            lemma_find_byte_from(s@, 125, i as int + 3);
                        }
                        let j = i + 3 + off;
                        let dig_len = j - (i + 3);
                        if dig_len == 0 || dig_len > 6 {
                            return Err(
                                EscapeError::InvalidUnicodeEscape {
                                    position: i + 1,
                                    reason: UnicodeEscapeReason::BadDigitCount,
                                },
                            );
                        }
                        let v = match hex_parse_exec(s, i + 3, j) {
                            None => {
                                return Err(
                                    EscapeError::InvalidUnicodeEscape {
                                        position: i + 1,
                                        reason: UnicodeEscapeReason::BadHexDigit,
                                    },
                                );
                            },
                            Some(v) => v,
                        };
                        match char_of_scalar(v) {
                            None => {
                                return Err(
                                    EscapeError::InvalidUnicodeEscape {
                                        position: i + 1,
                                        reason: UnicodeEscapeReason::BadCodePoint,
                                    },
                                );
                            },
                            Some(_) => {
                                let mut piece = encode_scalar_exec(v);
                                out.append(&mut piece);
                                i = j + 1;
                            },
                        }
                    },
                }
            } else {
                let (c, _) = decode_char_at(s, i + 1);
                return Err(EscapeError::InvalidEscape { position: i, escape: c });
            }
        }
        proof {
            let r_old = unescape(s@, old_i);
            let r_new = unescape(s@, i as int);
            match (r_old, r_new) {
                (Ok(r0), Ok(rn)) => {
                    assert(old_out + r0 =~= out@ + rn);
                },
                _ => {},
            }
        }
    }
    proof {
        assert(out@ + Seq::<u8>::empty() =~= out@);
    }
    Ok(out)
}

} // verus!
