//! Recovery regression tests: sources with unmatched brackets that once
//! exercised iterator cursor bugs must iterate to completion, with every
//! yielded element drawn from the tree.

use bct::bracer::{bracer, Bracer, BracerIter, TreeToken};
use bct::lexer::lex_chunk;
use bct::source_map::basic_source_map;
use bct::text::Text;

fn build(s: &str) -> Bracer {
    let chunk = basic_source_map(Text::new(s.as_bytes().to_vec()));
    let lex = lex_chunk(chunk);
    bracer(lex)
}

fn count_tree(tree: &Bracer, mut it: BracerIter) -> usize {
    let mut n = 0usize;
    while let Some(tt) = it.next(tree) {
        n += 1;
        if let TreeToken::Branch(_, sub) = tt {
            n += count_tree(tree, sub);
        }
    }
    n
}

fn exercise(source: &str) {
    let tree = build(source);
    let n = count_tree(&tree, tree.iter());
    assert!(n <= tree.chunk.tokens.len() + tree.branches.len());
    // the rendering walks the same cursors and must also complete
    let rendered = tree.debug_str();
    assert!(String::from_utf8(rendered).is_ok());
}

#[test]
fn test_seed_8_delete_opening() {
    exercise(r#": @!@@u64] / @[: @u64 / @19, : @u64 / @19]"#);
}

#[test]
fn test_seed_35_delete_opening() {
    exercise(r#": !seti32> / set {: i32 / 127, : i32 / 63}"#);
}

#[test]
fn test_seed_37_delete_opening() {
    exercise(r#": ##i16) / #(: #i16 / #35)"#);
}

#[test]
fn test_seed_42_delete_opening() {
    exercise(
        r#": #map#i64, #f32> / #map {: #i64 / #0 = : #f32 / #209.6, : #i64 / #59 = : #f32 / #12.8, : #i64 / #108 = : #f32 / #118.2}"#,
    );
}

#[test]
fn test_seed_57_delete_opening() {
    exercise(
        r#": #map#int, #bool> / #map {: #int / #119 = : #bool / #false, : #int / #20 = : #bool / #false}"#,
    );
}

#[test]
fn test_seed_60_delete_opening() {
    exercise(r#": #enum Gen44(#i16), GenType17} / #enum Gen44(: #i16 / #63)"#);
}

#[test]
fn test_seed_63_delete_opening() {
    exercise(r#": y1: string} / {y1 = : string / "value"}"#);
}

#[test]
fn test_seed_77_delete_opening() {
    exercise(r#": #data / #data : ##i64, #u16) / #(: #i64 / #99, : #u16 / #61)"#);
}

#[test]
fn test_seed_8_extra_closing() {
    exercise(r#": @!@[@u64] /] @[: @u64 / @19, : @u64 / @19]"#);
}

#[test]
fn test_seed_9_extra_closing() {
    exercise(r#": @map<@bool, @!@u64> /} @map {: @bool / @false = : @!@u64 / @254}"#);
}

#[test]
fn test_seed_58_extra_closing() {
    exercise(r#": #data / #data : #(#u)64, #bool) / #(: #u64 / #56, : #bool / #false)"#);
}

#[test]
fn test_seed_75_extra_closing() {
    exercise(r#": [u8] /] [: u8 / 180, : u8 / 202]"#);
}
