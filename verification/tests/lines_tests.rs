//! Line view tests: the tree grouped by newline whitespace.

use bct::bracer::{bracer, Bracer};
use bct::lexer::lex_chunk;
use bct::source_map::basic_source_map;
use bct::text::Text;

fn build(s: &str) -> Bracer {
    let chunk = basic_source_map(Text::new(s.as_bytes().to_vec()));
    let lex = lex_chunk(chunk);
    bracer(lex)
}

fn dbglines(s: &str) -> Vec<String> {
    let tree = build(s);
    let mut lines = tree.iter().lines();
    let mut out = Vec::new();
    while let Some(mut line) = lines.next_line(&tree) {
        let mut pieces: Vec<String> = Vec::new();
        while let Some(tt) = line.next(&tree) {
            pieces.push(String::from_utf8(tt.debug_str(&tree)).unwrap());
        }
        out.push(pieces.join(" "));
    }
    out
}

#[test]
fn test_lines() {
    assert_eq!(dbglines(""), Vec::<String>::new());
    assert_eq!(dbglines(" "), vec!["ws".to_string()]);
    assert_eq!(dbglines("\n"), vec!["ws".to_string()]);
    assert_eq!(dbglines("a\n"), vec!["a ws".to_string()]);
    assert_eq!(dbglines("a\nb"), vec!["a ws".to_string(), "b".to_string()]);
    assert_eq!(dbglines("a\nb\n"), vec!["a ws".to_string(), "b ws".to_string()]);
    assert_eq!(dbglines("a(b\nc)d"), vec!["a ( b ws c ) d".to_string()]);
    assert_eq!(
        dbglines("a(b\nc)d\na(b\nc)d"),
        vec!["a ( b ws c ) d ws".to_string(), "a ( b ws c ) d".to_string()],
    );
}

#[test]
fn newline_inside_branch_keeps_line() {
    // a newline inside a branch does not begin a new outer line
    assert_eq!(dbglines("a(b\nc)d"), vec!["a ( b ws c ) d".to_string()]);
}

#[test]
fn two_plain_lines() {
    assert_eq!(dbglines("a\nb\n"), vec!["a ws".to_string(), "b ws".to_string()]);
}
