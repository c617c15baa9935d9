//! Chunker tests: splitting at anchors and re-based ranges per chunk.

use bct::chunks::basic_chunks;
use bct::source_map::basic_source_map;
use bct::text::Text;

#[derive(Debug, Copy, Clone)]
enum F<'s> {
    T(&'s str),
    C(&'s str),
    S(&'s str),
    E(&'s str),
    Dot,
}

fn frag_str<'s>(f: &F<'s>) -> &'s str {
    match f {
        F::T(s) | F::C(s) | F::S(s) | F::E(s) => s,
        F::Dot => ".",
    }
}

fn source(frags: &[F<'_>]) -> String {
    frags.iter().map(frag_str).collect()
}

fn run(frags: &[F<'_>]) {
    let text = source(frags);
    let doc = basic_source_map(Text::new(text.as_bytes().to_vec()));
    let map = basic_chunks(&doc);

    // group the fragments on dots, the dot closing its group
    let mut groups: Vec<Vec<F<'_>>> = Vec::new();
    let mut cur: Vec<F<'_>> = Vec::new();
    for f in frags {
        cur.push(*f);
        if matches!(f, F::Dot) {
            groups.push(cur);
            cur = Vec::new();
        }
    }
    if !cur.is_empty() {
        groups.push(cur);
    }

    assert_eq!(map.chunks.len(), groups.len());
    for (group, chunk) in groups.iter().zip(map.chunks.iter()) {
        let ex_text = source(group);
        assert_eq!(chunk.text.bytes, ex_text.as_bytes().to_vec());

        let mut comments = chunk.comments.clone();
        let mut strings = chunk.strings.clone();
        let mut errors = chunk.errors.clone();
        let mut pos = 0usize;
        let mut with_pos = Vec::new();
        for f in group {
            with_pos.push((*f, pos));
            pos += frag_str(f).len();
        }
        for (f, p) in with_pos.iter().rev() {
            let s = frag_str(f);
            assert_eq!(&ex_text[*p..*p + s.len()], s);
            match f {
                F::T(_) | F::Dot => {},
                F::C(_) => {
                    let range = comments.pop().unwrap();
                    assert_eq!((range.start, range.end), (*p, *p + s.len()));
                },
                F::S(_) => {
                    let range = strings.pop().unwrap();
                    assert_eq!((range.start, range.end), (*p, *p + s.len()));
                },
                F::E(_) => {
                    let range = errors.pop().unwrap();
                    assert_eq!((range.start, range.end), (*p, *p + s.len()));
                },
            }
        }
        assert!(comments.is_empty());
        assert!(strings.is_empty());
        assert!(errors.is_empty());
    }
}

#[test]
fn chunks_test_source_map() {
    run(&[F::T("ab"), F::Dot, F::T("bdd"), F::C("%")]);
    run(&[F::T("ab"), F::Dot, F::T("bdd"), F::C("%"), F::T("\n")]);
    run(&[
        F::T("ab"),
        F::Dot,
        F::C("%a"),
        F::T("\nbdd"),
        F::C("%b"),
        F::T("\n"),
        F::C("%b"),
    ]);
    run(&[F::T("ab"), F::Dot, F::T("bdd"), F::S("\"x\"")]);
    run(&[F::T("ab"), F::Dot, F::T("bdd"), F::S("\"x\""), F::S("\"x\"")]);
    run(&[F::T("a"), F::Dot, F::T("b"), F::Dot, F::T("c"), F::Dot]);
    run(&[F::T("ab"), F::E("\"x")]);
    run(&[F::T("ab"), F::Dot, F::T("ab"), F::E("\"x")]);
    run(&[F::E("\"x . %")]);
    run(&[F::C("% \" . \""), F::T("\n")]);
    run(&[F::S("\"% . \"")]);
    run(&[F::T("/ a")]);
    run(&[F::E("/* a")]);
    run(&[F::C("/* */")]);
    run(&[F::C("/*/**/*/")]);
    run(&[F::E("/*/**/ab")]);
}

#[test]
fn chunks_concatenate_to_source() {
    // the quantified invariant: chunk texts concatenate byte-for-byte
    for text in ["a.b.c", ".", "..", "a\"x.y\"b.c%d.\ne", "", "/*.*/.", "\".."] {
        let doc = basic_source_map(Text::new(text.as_bytes().to_vec()));
        let map = basic_chunks(&doc);
        let mut rebuilt: Vec<u8> = Vec::new();
        for chunk in &map.chunks {
            assert!(!chunk.text.bytes.is_empty(), "empty chunk emitted");
            rebuilt.extend_from_slice(&chunk.text.bytes);
        }
        assert_eq!(rebuilt, text.as_bytes().to_vec(), "source {:?}", text);
    }
}
