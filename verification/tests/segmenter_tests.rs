//! Segmenter tests: classified ranges against fragment-built sources.

use bct::source_map::basic_source_map;
use bct::text::Text;

#[derive(Debug, Copy, Clone)]
enum F<'s> {
    T(&'s str),
    C(&'s str),
    S(&'s str),
    E(&'s str),
}

fn frag_str<'s>(f: &F<'s>) -> &'s str {
    match f {
        F::T(s) | F::C(s) | F::S(s) | F::E(s) => s,
    }
}

fn source(frags: &[F<'_>]) -> String {
    frags.iter().map(frag_str).collect()
}

fn positions(frags: &[F<'_>]) -> Vec<usize> {
    let mut pos = 0usize;
    let mut out = Vec::new();
    for f in frags {
        out.push(pos);
        pos += frag_str(f).len();
    }
    out
}

fn run(frags: &[F<'_>]) {
    let text = source(frags);
    let chunk = basic_source_map(Text::new(text.as_bytes().to_vec()));
    assert_eq!(chunk.text.bytes, text.as_bytes().to_vec());

    let mut comments = chunk.comments.clone();
    let mut strings = chunk.strings.clone();
    let mut errors = chunk.errors.clone();
    let pos = positions(frags);
    for (f, p) in frags.iter().zip(pos.iter()).rev() {
        let s = frag_str(f);
        assert_eq!(&text[*p..*p + s.len()], s);
        match f {
            F::T(_) => {},
            F::C(_) => {
                let range = comments.pop().unwrap();
                assert_eq!((range.start, range.end), (*p, *p + s.len()));
            },
            F::S(_) => {
                let range = strings.pop().unwrap();
                assert_eq!((range.start, range.end), (*p, *p + s.len()));
            },
            F::E(_) => {
                let range = errors.pop().unwrap();
                assert_eq!((range.start, range.end), (*p, *p + s.len()));
            },
        }
    }
    assert!(comments.is_empty());
    assert!(strings.is_empty());
    assert!(errors.is_empty());
}

#[test]
fn source_map_test_source_map() {
    run(&[F::T("ab"), F::T("bdd"), F::C("%")]);
    run(&[F::T("ab"), F::T("bdd"), F::C("%"), F::T("\n")]);
    run(&[
        F::T("ab"),
        F::C("%a"),
        F::T("\nbdd"),
        F::C("%b"),
        F::T("\n"),
        F::C("%b"),
    ]);
    run(&[F::T("ab"), F::T("bdd"), F::S("\"x\"")]);
    run(&[F::T("ab"), F::T("bdd"), F::S("\"x\""), F::S("\"x\"")]);
    run(&[F::T("a"), F::T("b"), F::T("c")]);
    run(&[F::T("ab"), F::E("\"x")]);
    run(&[F::T("ab"), F::T("ab"), F::E("\"x")]);
    run(&[F::E("\"x . %")]);
    run(&[F::C("% \" . \""), F::T("\n")]);
    run(&[F::S("\"% . \"")]);
    run(&[F::T("/ a")]);
    run(&[F::E("/* a")]);
    run(&[F::C("/* */")]);
    run(&[F::C("/*/**/*/")]);
    run(&[F::E("/*/**/ab")]);
}

#[test]
fn unterminated_string_error_range() {
    // a lone opening quote claims the rest of the text as one error
    let chunk = basic_source_map(Text::new(b"\"abc".to_vec()));
    assert_eq!(chunk.comments.len(), 0);
    assert_eq!(chunk.strings.len(), 0);
    assert_eq!(chunk.errors.len(), 1);
    assert_eq!((chunk.errors[0].start, chunk.errors[0].end), (0, 4));
}

#[test]
fn unterminated_nested_comment_error_range() {
    let chunk = basic_source_map(Text::new(b"/*/**/ab".to_vec()));
    assert_eq!(chunk.comments.len(), 0);
    assert_eq!(chunk.errors.len(), 1);
    assert_eq!((chunk.errors[0].start, chunk.errors[0].end), (0, 8));
}

#[test]
fn matched_nested_comment_range() {
    let chunk = basic_source_map(Text::new(b"/*/**/*/".to_vec()));
    assert_eq!(chunk.errors.len(), 0);
    assert_eq!(chunk.comments.len(), 1);
    assert_eq!((chunk.comments[0].start, chunk.comments[0].end), (0, 8));
}

#[test]
fn empty_input_no_ranges() {
    let chunk = basic_source_map(Text::new(Vec::new()));
    assert_eq!(chunk.comments.len(), 0);
    assert_eq!(chunk.strings.len(), 0);
    assert_eq!(chunk.errors.len(), 0);
    assert_eq!(chunk.text.bytes.len(), 0);
}

#[test]
fn segmenter_ranges_sorted_disjoint() {
    // the quantified invariant, checked on a concrete mixed source
    let text = b"a%c\n\"s\" /*x*/ \"unterminated".to_vec();
    let chunk = basic_source_map(Text::new(text.clone()));
    let mut all: Vec<(usize, usize)> = Vec::new();
    for sp in chunk
        .comments
        .iter()
        .chain(chunk.strings.iter())
        .chain(chunk.errors.iter())
    {
        all.push((sp.start, sp.end));
    }
    all.sort();
    for w in all.windows(2) {
        assert!(w[0].1 <= w[1].0, "ranges overlap: {:?}", w);
    }
    for (s, e) in &all {
        assert!(s < e && *e <= text.len());
    }
}
