//! Tokenizer: turns the unknown regions of a chunk into typed tokens while
//! passing pre-classified regions through as single opaque tokens.
//!
//! Token ranges partition the chunk byte-exactly. Words and whitespace
//! consume their whole same-class run, sigils match the fixed table, and
//! anything else becomes an error token that runs to a recovery boundary.

use vstd::prelude::*;

use crate::chars::{
    char_is_alphanumeric, char_is_whitespace, decode_char_at, scalar_at, unicode_alphanumeric,
    unicode_whitespace,
};
use crate::chunk::{Chunk, RangeKind};
use crate::text::Span;
use vstd::string::StringSliceAdditionalSpecFns;

verus! {

/// A punctuation token from the fixed table.
#[derive(Clone, Copy, Debug, Hash, PartialEq, Eq, Structural)]
pub enum Sigil {
    Dot,
    Comma,
    Semicolon,
    ColonDash,
    ParenOpen,
    ParenClose,
    BraceOpen,
    BraceClose,
    BracketOpen,
    BracketClose,
    AngleOpen,
    AngleClose,
}

/// The classification of a token.
#[derive(Clone, Copy, Debug, Hash, PartialEq, Eq, Structural)]
pub enum TokenKind {
    Word,
    Sigil(Sigil),
    String,
    Whitespace,
    Comment,
    Error,
}

/// A token: a byte span of the chunk text and its kind.
#[derive(Clone, Copy, Debug, PartialEq, Eq, Structural)]
pub struct Token {
    pub span: Span,
    pub kind: TokenKind,
}

/// A tokenized chunk: the chunk and its flat, ordered token list.
pub struct ChunkLex {
    pub chunk: Chunk,
    pub tokens: Vec<Token>,
}

impl Sigil {
    /// The lexeme of the sigil, as bytes.
    pub open spec fn lexeme_bytes(self) -> Seq<u8> {
        match self {
            Sigil::Dot => seq![46u8],
            Sigil::Comma => seq![44u8],
            Sigil::Semicolon => seq![59u8],
            Sigil::ColonDash => seq![58u8, 45u8],
            Sigil::ParenOpen => seq![40u8],
            Sigil::ParenClose => seq![41u8],
            Sigil::BraceOpen => seq![123u8],
            Sigil::BraceClose => seq![125u8],
            Sigil::BracketOpen => seq![91u8],
            Sigil::BracketClose => seq![93u8],
            Sigil::AngleOpen => seq![60u8],
            Sigil::AngleClose => seq![62u8],
        }
    }

    /// The sigil opens a bracket pair.
    pub open spec fn is_open_spec(self) -> bool {
        match self {
            Sigil::ParenOpen | Sigil::BraceOpen | Sigil::BracketOpen | Sigil::AngleOpen => true,
            _ => false,
        }
    }

    /// The sigil closes a bracket pair.
    pub open spec fn is_close_spec(self) -> bool {
        match self {
            Sigil::ParenClose | Sigil::BraceClose | Sigil::BracketClose | Sigil::AngleClose => true,
            _ => false,
        }
    }

    /// The closer of an opening bracket sigil.
    pub open spec fn close_of(self) -> Sigil {
        match self {
            Sigil::ParenOpen => Sigil::ParenClose,
            Sigil::BraceOpen => Sigil::BraceClose,
            Sigil::BracketOpen => Sigil::BracketClose,
            Sigil::AngleOpen => Sigil::AngleClose,
            _ => self,
        }
    }

    /// The lexeme as a string.
    pub fn as_str(&self) -> (r: &'static str)
        ensures
            r.spec_bytes() == self.lexeme_bytes(),
    {
        match self {
            Sigil::Dot => {
                let r = ".";
                proof {
                    reveal_strlit(".");
                    assert(vstd::utf8::is_ascii_chars(r@));
                    vstd::utf8::is_ascii_chars_encode_utf8(r@);
                    assert(r.spec_bytes() =~= seq![46u8]);
                }
                r
            },
            Sigil::Comma => {
                let r = ",";
                proof {
                    reveal_strlit(",");
                    assert(vstd::utf8::is_ascii_chars(r@));
                    vstd::utf8::is_ascii_chars_encode_utf8(r@);
                    assert(r.spec_bytes() =~= seq![44u8]);
                }
                r
            },
            Sigil::Semicolon => {
                let r = ";";
                proof {
                    reveal_strlit(";");
                    assert(vstd::utf8::is_ascii_chars(r@));
                    vstd::utf8::is_ascii_chars_encode_utf8(r@);
                    assert(r.spec_bytes() =~= seq![59u8]);
                }
                r
            },
            Sigil::ColonDash => {
                let r = ":-";
                proof {
                    reveal_strlit(":-");
                    assert(vstd::utf8::is_ascii_chars(r@));
                    vstd::utf8::is_ascii_chars_encode_utf8(r@);
                    assert(r.spec_bytes() =~= seq![58u8, 45u8]);
                }
                r
            },
            Sigil::ParenOpen => {
                let r = "(";
                proof {
                    reveal_strlit("(");
                    assert(vstd::utf8::is_ascii_chars(r@));
                    vstd::utf8::is_ascii_chars_encode_utf8(r@);
                    assert(r.spec_bytes() =~= seq![40u8]);
                }
                r
            },
            Sigil::ParenClose => {
                let r = ")";
                proof {
                    reveal_strlit(")");
                    assert(vstd::utf8::is_ascii_chars(r@));
                    vstd::utf8::is_ascii_chars_encode_utf8(r@);
                    assert(r.spec_bytes() =~= seq![41u8]);
                }
                r
            },
            Sigil::BraceOpen => {
                let r = "{";
                proof {
                    reveal_strlit("{");
                    assert(vstd::utf8::is_ascii_chars(r@));
                    vstd::utf8::is_ascii_chars_encode_utf8(r@);
                    assert(r.spec_bytes() =~= seq![123u8]);
                }
                r
            },
            Sigil::BraceClose => {
                let r = "}";
                proof {
                    reveal_strlit("}");
                    assert(vstd::utf8::is_ascii_chars(r@));
                    vstd::utf8::is_ascii_chars_encode_utf8(r@);
                    assert(r.spec_bytes() =~= seq![125u8]);
                }
                r
            },
            Sigil::BracketOpen => {
                let r = "[";
                proof {
                    reveal_strlit("[");
                    assert(vstd::utf8::is_ascii_chars(r@));
                    vstd::utf8::is_ascii_chars_encode_utf8(r@);
                    assert(r.spec_bytes() =~= seq![91u8]);
                }
                r
            },
            Sigil::BracketClose => {
                let r = "]";
                proof {
                    reveal_strlit("]");
                    assert(vstd::utf8::is_ascii_chars(r@));
                    vstd::utf8::is_ascii_chars_encode_utf8(r@);
                    assert(r.spec_bytes() =~= seq![93u8]);
                }
                r
            },
            Sigil::AngleOpen => {
                let r = "<";
                proof {
                    reveal_strlit("<");
                    assert(vstd::utf8::is_ascii_chars(r@));
                    vstd::utf8::is_ascii_chars_encode_utf8(r@);
                    assert(r.spec_bytes() =~= seq![60u8]);
                }
                r
            },
            Sigil::AngleClose => {
                let r = ">";
                proof {
                    reveal_strlit(">");
                    assert(vstd::utf8::is_ascii_chars(r@));
                    vstd::utf8::is_ascii_chars_encode_utf8(r@);
                    assert(r.spec_bytes() =~= seq![62u8]);
                }
                r
            },
        }
    }

    /// The matching closer of an opening bracket sigil.
    pub fn close_sigil(&self) -> (r: Sigil)
        requires
            self.is_open_spec(),
        ensures
            r == self.close_of(),
    {
        match self {
            Sigil::ParenOpen => Sigil::ParenClose,
            Sigil::BraceOpen => Sigil::BraceClose,
            Sigil::BracketOpen => Sigil::BracketClose,
            _ => Sigil::AngleClose,
        }
    }

    /// Whether the sigil closes a bracket pair.
    pub fn is_close_sigil(&self) -> (r: bool)
        ensures
            r == self.is_close_spec(),
    {
        matches!(
            self,
            Sigil::ParenClose | Sigil::BraceClose | Sigil::BracketClose | Sigil::AngleClose
        )
    }

    /// Whether the sigil opens a bracket pair.
    pub fn is_open_sigil(&self) -> (r: bool)
        ensures
            r == self.is_open_spec(),
    {
        matches!(self, Sigil::ParenOpen | Sigil::BraceOpen | Sigil::BracketOpen | Sigil::AngleOpen)
    }
}

impl Token {
    /// Whether the token is a closing bracket sigil.
    pub fn is_close_sigil(&self) -> (r: bool)
        ensures
            r == self.is_close_sigil_spec(),
    {
        match self.kind {
            TokenKind::Sigil(g) => g.is_close_sigil(),
            _ => false,
        }
    }

    pub open spec fn is_close_sigil_spec(&self) -> bool {
        match self.kind {
            TokenKind::Sigil(g) => g.is_close_spec(),
            _ => false,
        }
    }

    /// Drop the token when it is whitespace.
    pub fn without_space(self) -> (r: Option<Token>)
        ensures
            self.kind == TokenKind::Whitespace ==> r is None,
            self.kind != TokenKind::Whitespace ==> r == Some(self),
    {
        match self.kind {
            TokenKind::Whitespace => None,
            _ => Some(self),
        }
    }
}

/// The byte width consumed at `i` when lexing confined to `[.., re)`: the
/// width of the well-formed encoding there when it fits, else one byte.
pub open spec fn lex_width(s: Seq<u8>, i: int, re: int) -> int {
    match scalar_at(s, i) {
        Some((_, w)) => if 1 <= w && i + w <= re {
            w
        } else {
            1
        },
        None => 1,
    }
}

/// The character read at `i` when lexing confined to `[.., re)`.
pub open spec fn lex_char(s: Seq<u8>, i: int, re: int) -> char {
    match scalar_at(s, i) {
        Some((v, w)) => if 1 <= w && i + w <= re {
            v as char
        } else {
            '\u{fffd}'
        },
        None => '\u{fffd}',
    }
}

/// The four ways a token can start in an unknown region.
#[derive(Clone, Copy, Debug, PartialEq, Eq, Structural)]
pub enum NextToken {
    Whitespace,
    Word,
    Sigil,
    Error,
}

/// A character that may begin a sigil.
pub open spec fn is_sigil_start_char(c: char) -> bool {
    ||| c == '.'
    ||| c == ','
    ||| c == ';'
    ||| c == ':'
    ||| c == '('
    ||| c == ')'
    ||| c == '{'
    ||| c == '}'
    ||| c == '['
    ||| c == ']'
    ||| c == '<'
    ||| c == '>'
}

/// A character that may begin or continue a word.
pub open spec fn is_word_char(c: char) -> bool {
    unicode_alphanumeric(c) || c == '_'
}

/// How a token starting with character `c` is classified.
pub open spec fn token_start_class(c: char) -> NextToken {
    if unicode_whitespace(c) {
        NextToken::Whitespace
    } else if is_word_char(c) {
        NextToken::Word
    } else if is_sigil_start_char(c) {
        NextToken::Sigil
    } else {
        NextToken::Error
    }
}

/// The class of the character at `i`, confined to `[.., re)`.
pub open spec fn class_at(s: Seq<u8>, i: int, re: int) -> NextToken {
    token_start_class(lex_char(s, i, re))
}

/// End of the run of class `k` that starts at `i`: characters are consumed
/// while they classify as `k`.
pub open spec fn run_end(s: Seq<u8>, i: int, re: int, k: NextToken) -> int
    decreases re - i when 0 <= i <= re
{
    if i >= re {
        i
    } else if class_at(s, i, re) == k {
        run_end(s, i + lex_width(s, i, re), re, k)
    } else {
        i
    }
}

pub proof fn lemma_run_end(s: Seq<u8>, i: int, re: int, k: NextToken)
    requires
        0 <= i <= re,
    ensures
        i <= run_end(s, i, re, k) <= re,
        i < re && class_at(s, i, re) == k ==> i < run_end(s, i, re, k),
    decreases re - i,
{
    if i < re && class_at(s, i, re) == k {
        lemma_run_end(s, i + lex_width(s, i, re), re, k);
    }
}

/// The sigil that the longest match finds at byte `i`, confined to `re`.
pub open spec fn sigil_match(s: Seq<u8>, i: int, re: int) -> Option<Sigil> {
    if 0 <= i < re <= s.len() {
        let b = s[i];
        if b == 46 {
            Some(Sigil::Dot)
        } else if b == 44 {
            Some(Sigil::Comma)
        } else if b == 59 {
            Some(Sigil::Semicolon)
        } else if b == 58 {
            // a colon opens a sigil only as `:-`
            if i + 1 < re && s[i + 1] == 45 {
                Some(Sigil::ColonDash)
            } else {
                None
            }
        } else if b == 40 {
            Some(Sigil::ParenOpen)
        } else if b == 41 {
            Some(Sigil::ParenClose)
        } else if b == 123 {
            Some(Sigil::BraceOpen)
        } else if b == 125 {
            Some(Sigil::BraceClose)
        } else if b == 91 {
            Some(Sigil::BracketOpen)
        } else if b == 93 {
            Some(Sigil::BracketClose)
        } else if b == 60 {
            Some(Sigil::AngleOpen)
        } else if b == 62 {
            Some(Sigil::AngleClose)
        } else {
            None
        }
    } else {
        None
    }
}

/// End of an error token that starts at `i`: the offending character, then
/// every following character that classifies as an error start.
pub open spec fn error_run_end(s: Seq<u8>, i: int, re: int) -> int {
    run_end(s, i + lex_width(s, i, re), re, NextToken::Error)
}

/// The tokens of the unknown region `[i, re)` of text `s`.
pub open spec fn lex_unknown(s: Seq<u8>, i: int, re: int) -> Seq<Token>
    decreases re - i when 0 <= i <= re <= s.len() via lex_unknown_dec
{
    if i >= re {
        Seq::<Token>::empty()
    } else {
        match class_at(s, i, re) {
            NextToken::Whitespace => {
                let e = run_end(s, i, re, NextToken::Whitespace);
                seq![
                    Token {
                        span: Span { start: i as usize, end: e as usize },
                        kind: TokenKind::Whitespace,
                    },
                ] + lex_unknown(s, e, re)
            },
            NextToken::Word => {
                let e = run_end(s, i, re, NextToken::Word);
                seq![
                    Token {
                        span: Span { start: i as usize, end: e as usize },
                        kind: TokenKind::Word,
                    },
                ] + lex_unknown(s, e, re)
            },
            NextToken::Sigil => {
                match sigil_match(s, i, re) {
                    Some(g) => {
                        let e = i + g.lexeme_bytes().len();
                        seq![
                            Token {
                                span: Span { start: i as usize, end: e as usize },
                                kind: TokenKind::Sigil(g),
                            },
                        ] + lex_unknown(s, e, re)
                    },
                    None => {
                        let e = error_run_end(s, i, re);
                        seq![
                            Token {
                                span: Span { start: i as usize, end: e as usize },
                                kind: TokenKind::Error,
                            },
                        ] + lex_unknown(s, e, re)
                    },
                }
            },
            NextToken::Error => {
                let e = error_run_end(s, i, re);
                seq![
                    Token {
                        span: Span { start: i as usize, end: e as usize },
                        kind: TokenKind::Error,
                    },
                ] + lex_unknown(s, e, re)
            },
        }
    }
}

#[via_fn]
proof fn lex_unknown_dec(s: Seq<u8>, i: int, re: int) {
    if i < re {
        lemma_run_end(s, i, re, NextToken::Whitespace);
        lemma_run_end(s, i, re, NextToken::Word);
        lemma_run_end(s, i + lex_width(s, i, re), re, NextToken::Error);
        lemma_sigil_match_len(s, i, re);
    }
}

pub proof fn lemma_sigil_match_len(s: Seq<u8>, i: int, re: int)
    ensures
        sigil_match(s, i, re) matches Some(g) ==> 0 <= i && i + g.lexeme_bytes().len() <= re,
{
}

/// The token stream of a chunk: each classified region is one opaque token,
/// each unknown region is lexed.
pub open spec fn lex_ranges(c: &Chunk, rs: Seq<(Span, RangeKind)>) -> Seq<Token>
    decreases rs.len(),
{
    if rs.len() == 0 {
        Seq::<Token>::empty()
    } else {
        let sp = rs[0].0;
        let toks = match rs[0].1 {
            RangeKind::Comment => seq![Token { span: sp, kind: TokenKind::Comment }],
            RangeKind::String => seq![Token { span: sp, kind: TokenKind::String }],
            RangeKind::Error => seq![Token { span: sp, kind: TokenKind::Error }],
            RangeKind::Unknown => lex_unknown(c@, sp.start as int, sp.end as int),
        };
        toks + lex_ranges(c, rs.skip(1))
    }
}

/// The full token stream of a chunk.
pub open spec fn lex_spec(c: &Chunk) -> Seq<Token> {
    lex_ranges(c, c.merged_from(0))
}

/// Read the character at `i` as the lexer sees it, confined to `[.., re)`.
fn lex_char_exec(text: &[u8], i: usize, re: usize) -> (r: (char, usize))
    requires
        i < re <= text@.len(),
    ensures
        r.0 == lex_char(text@, i as int, re as int),
        r.1 == lex_width(text@, i as int, re as int),
        1 <= r.1 && i + r.1 <= re,
{
    let (c, w) = decode_char_at(text, i);
    if w <= re - i {
        (c, w)
    } else {
        ('\u{fffd}', 1)
    }
}

/// Classify the token that starts at `i`.
fn class_at_exec(text: &[u8], i: usize, re: usize) -> (r: NextToken)
    requires
        i < re <= text@.len(),
    ensures
        r == class_at(text@, i as int, re as int),
{
    let (c, _) = lex_char_exec(text, i, re);
    if char_is_whitespace(c) {
        NextToken::Whitespace
    } else if char_is_alphanumeric(c) || c == '_' {
        NextToken::Word
    } else if c == '.' || c == ',' || c == ';' || c == ':' || c == '(' || c == ')' || c == '{'
        || c == '}' || c == '[' || c == ']' || c == '<' || c == '>' {
        NextToken::Sigil
    } else {
        NextToken::Error
    }
}

/// Find the end of a run of class `k` starting at `i`.
fn run_end_exec(text: &[u8], i: usize, re: usize, k: NextToken) -> (e: usize)
    requires
        i <= re <= text@.len(),
    ensures
        e as int == run_end(text@, i as int, re as int, k),
        i <= e <= re,
{
    proof {
        lemma_run_end(text@, i as int, re as int, k);
    }
    let mut j: usize = i;
    loop
        invariant
            i <= j <= re <= text@.len(),
            run_end(text@, i as int, re as int, k) == run_end(text@, j as int, re as int, k),
        ensures
            i <= j <= re,
            run_end(text@, i as int, re as int, k) == j as int,
        decreases re - j,
    {
        if j >= re {
            break;
        }
        let cl = class_at_exec(text, j, re);
        if cl != k {
            break;
        }
        let (_, w) = lex_char_exec(text, j, re);
        j = j + w;
    }
    j
}

/// Match a sigil at byte `i`.
fn sigil_match_exec(text: &[u8], i: usize, re: usize) -> (r: Option<Sigil>)
    requires
        i < re <= text@.len(),
    ensures
        r == sigil_match(text@, i as int, re as int),
{
    let b = text[i];
    if b == 46 {
        Some(Sigil::Dot)
    } else if b == 44 {
        Some(Sigil::Comma)
    } else if b == 59 {
        Some(Sigil::Semicolon)
    } else if b == 58 {
        if i + 1 < re && text[i + 1] == 45 {
            Some(Sigil::ColonDash)
        } else {
            None
        }
    } else if b == 40 {
        Some(Sigil::ParenOpen)
    } else if b == 41 {
        Some(Sigil::ParenClose)
    } else if b == 123 {
        Some(Sigil::BraceOpen)
    } else if b == 125 {
        Some(Sigil::BraceClose)
    } else if b == 91 {
        Some(Sigil::BracketOpen)
    } else if b == 93 {
        Some(Sigil::BracketClose)
    } else if b == 60 {
        Some(Sigil::AngleOpen)
    } else if b == 62 {
        Some(Sigil::AngleClose)
    } else {
        None
    }
}

/// Tokenize a chunk.
///
/// The tokens are exactly the interleaving of opaque region tokens and the
/// lexed unknown regions, in source order.
pub fn lex_chunk(chunk: Chunk) -> (r: ChunkLex)
    requires
        chunk.wf(),
    ensures
        r.chunk@ == chunk@,
        r.chunk.comments@ == chunk.comments@,
        r.chunk.strings@ == chunk.strings@,
        r.chunk.errors@ == chunk.errors@,
        r.tokens@ == lex_spec(&chunk),
{
    let text = chunk.text.as_bytes();
    let n = text.len();
    proof {
        assert(chunk@.len() <= usize::MAX);
        assert(crate::chunk::covered_before(&chunk, 0));
    }
    let regions = chunk.ranges();
    let mut tokens: Vec<Token> = Vec::new();
    let ghost merged = chunk.merged_from(0);
    proof {
        crate::chunk::lemma_merged_cover(&chunk, 0);
        assert(regions@.skip(0) =~= regions@);
    }
    let mut ri: usize = 0;
    while ri < regions.len()
        invariant
            0 <= ri <= regions@.len(),
            regions@ == merged,
            merged == chunk.merged_from(0),
            chunk.wf(),
            text@ == chunk@,
            forall|k: int|
                0 <= k < merged.len() ==> (#[trigger] merged[k]).0.start < merged[k].0.end
                    <= chunk@.len(),
            lex_spec(&chunk) == tokens@ + lex_ranges(&chunk, merged.skip(ri as int)),
        decreases regions@.len() - ri,
    {
        let (sp, kind) = regions[ri];
        let ghost old_tokens = tokens@;
        proof {
            assert(merged.skip(ri as int)[0] == merged[ri as int]);
            assert(merged.skip(ri as int).skip(1) =~= merged.skip(ri as int + 1));
        }
        match kind {
            RangeKind::Comment => {
                tokens.push(Token { span: sp, kind: TokenKind::Comment });
            },
            RangeKind::String => {
                tokens.push(Token { span: sp, kind: TokenKind::String });
            },
            RangeKind::Error => {
                tokens.push(Token { span: sp, kind: TokenKind::Error });
            },
            RangeKind::Unknown => {
                let re = sp.end;
                let mut i: usize = sp.start;
                proof {
                    assert(tokens@ + (lex_unknown(chunk@, i as int, re as int) + lex_ranges(
                        &chunk,
                        merged.skip(ri as int + 1),
                    )) =~= tokens@ + lex_ranges(&chunk, merged.skip(ri as int)));
                }
                while i < re
                    invariant
                        sp.start <= i <= re <= text@.len(),
                        text@ == chunk@,
                        lex_spec(&chunk) == tokens@ + (lex_unknown(chunk@, i as int, re as int)
                            + lex_ranges(&chunk, merged.skip(ri as int + 1))),
                        merged == chunk.merged_from(0),
                        chunk.wf(),
                    decreases re - i,
                {
                    let ghost old_inner = tokens@;
                    let cl = class_at_exec(text, i, re);
                    let e: usize = match cl {
                        NextToken::Whitespace => {
                            let e = run_end_exec(text, i, re, NextToken::Whitespace);
                            tokens.push(
                                Token {
                                    span: Span { start: i, end: e },
                                    kind: TokenKind::Whitespace,
                                },
                            );
                            e
                        },
                        NextToken::Word => {
                            let e = run_end_exec(text, i, re, NextToken::Word);
                            tokens.push(
                                Token { span: Span { start: i, end: e }, kind: TokenKind::Word },
                            );
                            e
                        },
                        NextToken::Sigil => {
                            match sigil_match_exec(text, i, re) {
                                Some(g) => {
                                    let glen: usize = match g {
                                        Sigil::ColonDash => 2,
                                        _ => 1,
                                    };
                                    let e = i + glen;
                                    tokens.push(
                                        Token {
                                            span: Span { start: i, end: e },
                                            kind: TokenKind::Sigil(g),
                                        },
                                    );
                                    e
                                },
                                None => {
                                    let (_, w) = lex_char_exec(text, i, re);
                                    let e = run_end_exec(text, i + w, re, NextToken::Error);
                                    tokens.push(
                                        Token {
                                            span: Span { start: i, end: e },
                                            kind: TokenKind::Error,
                                        },
                                    );
                                    e
                                },
                            }
                        },
                        NextToken::Error => {
                            let (_, w) = lex_char_exec(text, i, re);
                            let e = run_end_exec(text, i + w, re, NextToken::Error);
                            tokens.push(
                                Token { span: Span { start: i, end: e }, kind: TokenKind::Error },
                            );
                            e
                        },
                    };
                    proof {
                        lemma_run_end(text@, i as int, re as int, NextToken::Whitespace);
                        lemma_run_end(text@, i as int, re as int, NextToken::Word);
                        lemma_run_end(
                            text@,
                            i as int + lex_width(text@, i as int, re as int),
                            re as int,
                            NextToken::Error,
                        );
                        assert(tokens@ + (lex_unknown(chunk@, e as int, re as int) + lex_ranges(
                            &chunk,
                            merged.skip(ri as int + 1),
                        )) =~= old_inner + (lex_unknown(chunk@, i as int, re as int) + lex_ranges(
                            &chunk,
                            merged.skip(ri as int + 1),
                        )));
                    }
                    i = e;
                }
                proof {
                    assert(lex_unknown(chunk@, i as int, re as int) =~= Seq::<Token>::empty());
                }
            },
        }
        ri = ri + 1;
        proof {
            assert(tokens@ + lex_ranges(&chunk, merged.skip(ri as int)) =~= old_tokens
                + lex_ranges(&chunk, merged.skip(ri as int - 1)));
        }
    }
    proof {
        assert(merged.skip(merged.len() as int) =~= Seq::<(Span, RangeKind)>::empty());
        assert(tokens@ + lex_ranges(&chunk, merged.skip(ri as int)) =~= tokens@);
    }
    ChunkLex { chunk, tokens }
}

impl ChunkLex {
    /// Every token's span lies inside the chunk text.
    pub open spec fn tokens_wf(&self) -> bool {
        forall|k: int|
            0 <= k < self.tokens@.len() ==> {
                let t = #[trigger] self.tokens@[k];
                t.span.start <= t.span.end <= self.chunk@.len()
            }
    }
}

/// The bytes of a token in the canonical diagnostic rendering: word and
/// string tokens show their text, sigils their lexeme, and whitespace,
/// comments and errors the fixed markers `ws`, `cmt` and `err`.
pub open spec fn token_debug_bytes(t: Token, s: Seq<u8>) -> Seq<u8> {
    match t.kind {
        TokenKind::Word => s.subrange(t.span.start as int, t.span.end as int),
        TokenKind::String => s.subrange(t.span.start as int, t.span.end as int),
        TokenKind::Sigil(g) => g.lexeme_bytes(),
        TokenKind::Whitespace => seq![119u8, 115u8],
        TokenKind::Comment => seq![99u8, 109u8, 116u8],
        TokenKind::Error => seq![101u8, 114u8, 114u8],
    }
}

/// The lexeme of a sigil as an owned byte vector.
pub(crate) fn sigil_lexeme_vec(g: Sigil) -> (r: Vec<u8>)
    ensures
        r@ == g.lexeme_bytes(),
{
    let mut v: Vec<u8> = Vec::new();
    match g {
        Sigil::Dot => v.push(46),
        Sigil::Comma => v.push(44),
        Sigil::Semicolon => v.push(59),
        Sigil::ColonDash => {
            v.push(58);
            v.push(45);
        },
        Sigil::ParenOpen => v.push(40),
        Sigil::ParenClose => v.push(41),
        Sigil::BraceOpen => v.push(123),
        Sigil::BraceClose => v.push(125),
        Sigil::BracketOpen => v.push(91),
        Sigil::BracketClose => v.push(93),
        Sigil::AngleOpen => v.push(60),
        Sigil::AngleClose => v.push(62),
    }
    proof {
        assert(v@ =~= g.lexeme_bytes());
    }
    v
}


impl Token {
    /// The bytes of this token in the canonical diagnostic rendering.
    pub fn debug_str(&self, text: &crate::text::Text) -> (r: Vec<u8>)
        requires
            self.span.within(text@.len() as int),
        ensures
            r@ == token_debug_bytes(*self, text@),
    {
        match self.kind {
            TokenKind::Word => text.slice_to_vec(self.span),
            TokenKind::String => text.slice_to_vec(self.span),
            TokenKind::Sigil(g) => sigil_lexeme_vec(g),
            TokenKind::Whitespace => {
                let mut v: Vec<u8> = Vec::new();
                v.push(119);
                v.push(115);
                proof {
                    assert(v@ =~= seq![119u8, 115u8]);
                }
                v
            },
            TokenKind::Comment => {
                let mut v: Vec<u8> = Vec::new();
                v.push(99);
                v.push(109);
                v.push(116);
                proof {
                    assert(v@ =~= seq![99u8, 109u8, 116u8]);
                }
                v
            },
            TokenKind::Error => {
                let mut v: Vec<u8> = Vec::new();
                v.push(101);
                v.push(114);
                v.push(114);
                proof {
                    assert(v@ =~= seq![101u8, 114u8, 114u8]);
                }
                v
            },
        }
    }
}


/// The token list's canonical rendering from entry `k` on: each token's
/// debug form, a space before every token but the first.
pub open spec fn tokens_debug_join(tokens: Seq<Token>, s: Seq<u8>, k: int) -> Seq<u8>
    decreases tokens.len() - k when 0 <= k
{
    if k >= tokens.len() {
        Seq::<u8>::empty()
    } else {
        (if k > 0 {
            seq![32u8]
        } else {
            Seq::<u8>::empty()
        }) + token_debug_bytes(tokens[k], s) + tokens_debug_join(tokens, s, k + 1)
    }
}

impl ChunkLex {
    /// The canonical diagnostic rendering of the token list: the tokens'
    /// debug forms, space-separated.
    pub fn debug_str(&self) -> (r: Vec<u8>)
        requires
            self.tokens_wf(),
        ensures
            r@ == tokens_debug_join(self.tokens@, self.chunk@, 0),
    {
        let mut out: Vec<u8> = Vec::new();
        let mut k: usize = 0;
        proof {
            assert(out@ + tokens_debug_join(self.tokens@, self.chunk@, 0) =~= tokens_debug_join(
                self.tokens@,
                self.chunk@,
                0,
            ));
        }
        while k < self.tokens.len()
            invariant
                0 <= k <= self.tokens@.len(),
                self.tokens_wf(),
                tokens_debug_join(self.tokens@, self.chunk@, 0) == out@ + tokens_debug_join(
                    self.tokens@,
                    self.chunk@,
                    k as int,
                ),
            decreases self.tokens@.len() - k,
        {
            let ghost out_before = out@;
            if k > 0 {
                out.push(32);
            }
            let mut piece = self.tokens[k].debug_str(&self.chunk.text);
            out.append(&mut piece);
            k = k + 1;
            proof {
                assert(out@ + tokens_debug_join(self.tokens@, self.chunk@, k as int) =~= out_before
                    + tokens_debug_join(self.tokens@, self.chunk@, k as int - 1));
            }
        }
        proof {
            assert(tokens_debug_join(self.tokens@, self.chunk@, k as int) =~= Seq::<u8>::empty());
            assert(out@ + tokens_debug_join(self.tokens@, self.chunk@, k as int) =~= out@);
        }
        out
    }
}

} // verus!
