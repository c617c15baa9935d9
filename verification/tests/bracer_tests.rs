//! Bracer tests: renderings, spans, diagnostics and the count laws.

use bct::bracer::{bracer, Bracer, TreeToken};
use bct::lexer::{lex_chunk, Sigil};
use bct::source_map::basic_source_map;
use bct::text::Text;

fn build(s: &str) -> Bracer {
    let chunk = basic_source_map(Text::new(s.as_bytes().to_vec()));
    let lex = lex_chunk(chunk);
    bracer(lex)
}

fn dbglex(s: &str) -> String {
    String::from_utf8(build(s).debug_str()).unwrap()
}

#[test]
fn test_bracer() {
    assert_eq!(dbglex(" "), "ws");
    assert_eq!(dbglex("a b"), "a ws b");
    assert_eq!(dbglex("a\nb"), "a ws b");
    assert_eq!(dbglex("()"), "( )");
    assert_eq!(dbglex("{}"), "{ }");
    assert_eq!(dbglex("())"), "( )");
    assert_eq!(dbglex("(})"), "( )");
    assert_eq!(dbglex("(()"), "( ( ) )");
    assert_eq!(dbglex("({)"), "( { } )");
    assert_eq!(dbglex(")"), "");
    assert_eq!(dbglex("))})"), "");
    assert_eq!(dbglex("(({("), "( ( { ( ) } ) )");
    assert_eq!(dbglex("a(b)c"), "a ( b ) c");
    assert_eq!(dbglex("a(b(c"), "a ( b ( c ) )");
    assert_eq!(dbglex("a)b)c"), "a b c");
    assert_eq!(dbglex("(a}b}c)"), "( a b c )");
    assert_eq!(dbglex("[]"), "[ ]");
    assert_eq!(dbglex("<>"), "< >");
    assert_eq!(dbglex("a[b]c"), "a [ b ] c");
    assert_eq!(dbglex("a<b>c"), "a < b > c");
    assert_eq!(dbglex("([{<>}])"), "( [ { < > } ] )");
    assert_eq!(dbglex("{(}"), "{ ( ) }");
    assert_eq!(dbglex("{[}"), "{ [ ] }");
    assert_eq!(dbglex("{<}"), "{ < > }");
    assert_eq!(dbglex("([)"), "( [ ] )");
    assert_eq!(dbglex("(<)"), "( < > )");
    assert_eq!(dbglex("[<]"), "[ < > ]");
}

#[test]
fn bracer_test_bracer() {
    assert_eq!(dbglex(" "), "ws");
    assert_eq!(dbglex("a b"), "a ws b");
    assert_eq!(dbglex("()"), "( )");
    assert_eq!(dbglex("{}"), "{ }");
    assert_eq!(dbglex("())"), "( )");
    assert_eq!(dbglex("(})"), "( )");
    assert_eq!(dbglex("(()"), "( ( ) )");
    assert_eq!(dbglex("({)"), "( { } )");
    assert_eq!(dbglex(")"), "");
    assert_eq!(dbglex("))})"), "");
    assert_eq!(dbglex("(({("), "( ( { ( ) } ) )");
    assert_eq!(dbglex("a(b)c"), "a ( b ) c");
    assert_eq!(dbglex("a(b(c"), "a ( b ( c ) )");
    assert_eq!(dbglex("a)b)c"), "a b c");
    assert_eq!(dbglex("(a}b}c)"), "( a b c )");
}

#[test]
fn test_removed_closes() {
    assert_eq!(dbglex("a)b"), "a b");
    assert_eq!(dbglex("a}b"), "a b");
    assert_eq!(dbglex("a]b"), "a b");
    assert_eq!(dbglex("a>b"), "a b");
    assert_eq!(dbglex("a)}]>b"), "a b");
    assert_eq!(dbglex("(a}b)"), "( a b )");
    assert_eq!(dbglex("(a}b}c)"), "( a b c )");
    assert_eq!(dbglex("(a))"), "( a )");
    assert_eq!(dbglex("(a)})"), "( a )");
    assert_eq!(dbglex("((a)})"), "( ( a ) )");
}

fn first_branch_span(s: &str) -> Option<(usize, usize, String)> {
    let tree = build(s);
    let mut it = tree.iter();
    while let Some(tt) = it.next(&tree) {
        if matches!(tt, TreeToken::Branch(..)) {
            let sp = tt.text_span(&tree)?;
            let spanned = String::from_utf8(s.as_bytes()[sp.start..sp.end].to_vec()).unwrap();
            return Some((sp.start, sp.end, spanned));
        }
    }
    None
}

#[test]
fn test_text_span() {
    let (start, end, spanned) = first_branch_span("(a)").unwrap();
    assert_eq!(spanned, "(a)");
    assert_eq!(start, 0);
    assert_eq!(end, 3);

    let (start, end, spanned) = first_branch_span("()").unwrap();
    assert_eq!(spanned, "()");
    assert_eq!(start, 0);
    assert_eq!(end, 2);

    let (start, end, spanned) = first_branch_span("x(a)").unwrap();
    assert_eq!(spanned, "(a)");
    assert_eq!(start, 1);
    assert_eq!(end, 4);

    let (start, end, spanned) = first_branch_span("(a").unwrap();
    assert_eq!(spanned, "(a");
    assert_eq!(start, 0);
    assert_eq!(end, 2);

    let (start, end, spanned) = first_branch_span("((a))").unwrap();
    assert_eq!(spanned, "((a))");
    assert_eq!(start, 0);
    assert_eq!(end, 5);

    let (start, end, spanned) = first_branch_span("[x]").unwrap();
    assert_eq!(spanned, "[x]");
    assert_eq!(start, 0);
    assert_eq!(end, 3);

    let (start, end, spanned) = first_branch_span("{y}").unwrap();
    assert_eq!(spanned, "{y}");
    assert_eq!(start, 0);
    assert_eq!(end, 3);

    let (start, end, spanned) = first_branch_span("<z>").unwrap();
    assert_eq!(spanned, "<z>");
    assert_eq!(start, 0);
    assert_eq!(end, 3);
}

#[test]
fn test_without_space() {
    let tree = build("a b (c)");
    let mut it = tree.iter();
    let mut tokens = Vec::new();
    while let Some(tt) = it.next(&tree) {
        tokens.push(tt);
    }
    assert_eq!(tokens.len(), 5);
    assert!(tokens[0].without_space().is_some());
    assert!(tokens[1].without_space().is_none());
    assert!(tokens[4].without_space().is_some());
}

#[test]
fn scenario_empty() {
    let tree = build("");
    assert_eq!(dbglex(""), "");
    assert_eq!(tree.chunk.tokens.len(), 0);
    assert_eq!(tree.branches.len(), 0);
    assert_eq!(tree.inserted_closes.len(), 0);
    assert_eq!(tree.removed_closes.len(), 0);
    assert_eq!(tree.errors.len(), 0);
}

#[test]
fn scenario_matched_pair() {
    let tree = build("()");
    assert_eq!(dbglex("()"), "( )");
    assert_eq!(tree.errors.len(), 0);
    assert_eq!(tree.inserted_closes.len(), 0);
    assert_eq!(tree.removed_closes.len(), 0);
}

#[test]
fn scenario_unterminated_inner() {
    let tree = build("(()");
    assert_eq!(dbglex("(()"), "( ( ) )");
    assert_eq!(tree.inserted_closes.len(), 1);
    assert_eq!(tree.inserted_closes[0], (3, Sigil::ParenClose));
    assert_eq!(tree.errors.len(), 1);
    // the close matches the innermost opener, so the outer one survives
    // to the end of input and its error spans all three tokens
    assert_eq!((tree.errors[0].0.start, tree.errors[0].0.end), (0, 3));
    assert_eq!(tree.errors[0].1, Sigil::ParenOpen);
}

#[test]
fn scenario_stray_close() {
    let tree = build(")");
    assert_eq!(dbglex(")"), "");
    assert_eq!(tree.removed_closes.len(), 1);
    assert_eq!(tree.removed_closes[0], (0, Sigil::ParenClose));
    assert_eq!(tree.errors.len(), 1);
    assert_eq!((tree.errors[0].0.start, tree.errors[0].0.end), (0, 1));
}

#[test]
fn scenario_mismatched_close() {
    // the brace never opened: it is removed, the parens match
    let tree = build("(})");
    assert_eq!(dbglex("(})"), "( )");
    assert_eq!(tree.removed_closes.len(), 1);
    assert_eq!(tree.removed_closes[0], (1, Sigil::BraceClose));

    // the brace opened inside the parens: the outer closer closes it
    // implicitly with a synthesised close
    let tree = build("({)");
    assert_eq!(dbglex("({)"), "( { } )");
    assert_eq!(tree.inserted_closes.len(), 1);
    assert_eq!(tree.inserted_closes[0], (2, Sigil::BraceClose));
    assert_eq!(tree.removed_closes.len(), 0);
    assert_eq!(tree.errors.len(), 1);
}

fn check_counts(s: &str) {
    let tree = build(s);
    // hopping by each top-level branch's count partitions the vector
    let mut i = 0usize;
    let mut top_branches = 0usize;
    let mut ic_sum = 0usize;
    let mut rc_sum = 0usize;
    let mut err_sum = 0usize;
    while i < tree.branches.len() {
        top_branches += 1;
        ic_sum += tree.branches[i].inserted_closes;
        rc_sum += tree.branches[i].removed_closes;
        err_sum += tree.branches[i].errors;
        i += 1 + tree.branches[i].branches;
    }
    assert_eq!(i, tree.branches.len(), "branch hops diverge on {:?}", s);
    let _ = top_branches;
    // every inserted close belongs to some branch
    assert_eq!(ic_sum, tree.inserted_closes.len(), "inserted closes on {:?}", s);
    // stray closes and errors may also stand at the top level
    assert!(rc_sum <= tree.removed_closes.len(), "removed closes on {:?}", s);
    assert!(err_sum <= tree.errors.len(), "errors on {:?}", s);
}

#[test]
fn counts_consistent_scenarios() {
    for s in [
        "",
        "()",
        "(()",
        ")",
        "(})",
        "({)",
        "(({(",
        "a(b(c",
        "(a}b}c)",
        "([{<>}])",
        "))})",
        "a[b]<c>{d}(e)",
    ] {
        check_counts(s);
    }
}
