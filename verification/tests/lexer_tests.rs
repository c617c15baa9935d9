//! Tokenizer tests: the canonical debug rendering of token lists.

use bct::lexer::{lex_chunk, TokenKind};
use bct::source_map::basic_source_map;
use bct::text::Text;

fn dbglex(s: &str) -> String {
    let chunk = basic_source_map(Text::new(s.as_bytes().to_vec()));
    let lex = lex_chunk(chunk);
    String::from_utf8(lex.debug_str()).unwrap()
}

#[test]
fn test_lex_chunk() {
    assert_eq!(dbglex(" "), "ws");
    assert_eq!(dbglex("a"), "a");
    assert_eq!(dbglex("a b"), "a ws b");
    assert_eq!(dbglex("a:-b"), "a :- b");
    assert_eq!(dbglex("a :- b \n c"), "a ws :- ws b ws c");
    assert_eq!(dbglex("a%"), "a cmt");
    assert_eq!(dbglex("a%\n"), "a cmt ws");
    assert_eq!(dbglex("a%\nd"), "a cmt ws d");
    assert_eq!(dbglex("(){}){"), "( ) { } ) {");
}

#[test]
fn lex_all_sigils() {
    assert_eq!(dbglex(".,;:-()[]{}<>"), ". , ; :- ( ) [ ] { } < >");
}

#[test]
fn lex_error_runs() {
    // a colon not followed by a dash is no sigil: an error token
    assert_eq!(dbglex(":a"), "err a");
    // unknown characters coalesce until a recovery boundary
    assert_eq!(dbglex("@#!a"), "err a");
    assert_eq!(dbglex("a@# b"), "a err ws b");
}

#[test]
fn tokens_partition_chunk() {
    // the quantified invariant: token spans partition the text exactly
    for text in ["", " ", "a b(c)%x\n\"s\"@!.", "(({(", "a:-b;c,d."] {
        let chunk = basic_source_map(Text::new(text.as_bytes().to_vec()));
        let lex = lex_chunk(chunk);
        let mut pos = 0usize;
        for t in &lex.tokens {
            assert_eq!(t.span.start, pos, "gap in {:?}", text);
            assert!(t.span.start < t.span.end, "empty token in {:?}", text);
            pos = t.span.end;
        }
        assert_eq!(pos, text.len(), "cover short in {:?}", text);
    }
}

#[test]
fn empty_input_zero_tokens() {
    let chunk = basic_source_map(Text::new(Vec::new()));
    let lex = lex_chunk(chunk);
    assert_eq!(lex.tokens.len(), 0);
}

#[test]
fn pure_whitespace_single_token() {
    let chunk = basic_source_map(Text::new(b"  \t ".to_vec()));
    let lex = lex_chunk(chunk);
    assert_eq!(lex.tokens.len(), 1);
    assert_eq!(lex.tokens[0].kind, TokenKind::Whitespace);
    assert_eq!((lex.tokens[0].span.start, lex.tokens[0].span.end), (0, 4));
}

#[test]
fn round_trip_reconstructs_text() {
    // concatenating the token slices gives the source back, byte-for-byte
    for text in ["", "a b", "a%c\n\"s\"@!(x)", "/*a*/b\"q", "héllo wörld"] {
        let chunk = basic_source_map(Text::new(text.as_bytes().to_vec()));
        let lex = lex_chunk(chunk);
        let mut rebuilt: Vec<u8> = Vec::new();
        for t in &lex.tokens {
            rebuilt.extend_from_slice(&lex.chunk.text.bytes[t.span.start..t.span.end]);
        }
        assert_eq!(rebuilt, text.as_bytes().to_vec(), "source {:?}", text);
    }
}

#[test]
fn multibyte_word_run() {
    // a non-ASCII letter continues a word run
    let chunk = basic_source_map(Text::new("héllo wörld".as_bytes().to_vec()));
    let lex = lex_chunk(chunk);
    assert_eq!(lex.tokens.len(), 3);
    assert_eq!(lex.tokens[0].kind, TokenKind::Word);
    assert_eq!(lex.tokens[1].kind, TokenKind::Whitespace);
    assert_eq!(lex.tokens[2].kind, TokenKind::Word);
}
