//! The stated laws of the pipeline, proved over the stage specifications.
//!
//! Each stage's executable function ensures that its output equals a
//! specification function of its input, so what is proved here of the
//! specification functions holds of every output.

use vstd::prelude::*;
use vstd::utf8::{
    is_char_boundary, is_char_boundary_iff_not_is_continuation_byte,
    is_char_boundary_start_end_of_seq, length_of_first_scalar, pop_first_scalar, valid_first_scalar,
    valid_utf8, valid_utf8_split,
};

use crate::chunk::{Chunk, RangeKind};
use crate::chunks::{chunk_bounds_from, cut_end, lemma_cut_end};
use crate::lexer::{
    class_at, lex_ranges, lex_spec, lex_unknown, lex_width, run_end, lemma_run_end,
    lemma_sigil_match_len, sigil_match, NextToken, Token,
};
use crate::search::lemma_find_byte_from;
use crate::source_map::{
    lemma_next_start, lemma_nested_end, lemma_parse_comment_bounds, lemma_parse_string_bounds,
    next_start, parse_comment_spec, parse_string_spec, seg_from,
};
use crate::text::Span;

verus! {

/// In valid UTF-8, the position after an ASCII byte is a character boundary.
pub proof fn lemma_boundary_after_ascii(s: Seq<u8>, i: int)
    requires
        valid_utf8(s),
        0 <= i < s.len(),
        s[i] < 0x80,
    ensures
        is_char_boundary(s, i + 1),
{
    is_char_boundary_iff_not_is_continuation_byte(s, i);
    assert(is_char_boundary(s, i));
    valid_utf8_split(s, i);
    let suffix = s.subrange(i, s.len() as int);
    assert(valid_utf8(suffix));
    assert(suffix[0] == s[i]);
    assert(valid_first_scalar(suffix));
    assert(length_of_first_scalar(suffix) == 1);
    if i + 1 == s.len() {
        is_char_boundary_start_end_of_seq(s);
    } else {
        let tail = pop_first_scalar(suffix);
        assert(valid_utf8(tail));
        assert(tail.len() > 0);
        assert(tail[0] == s[i + 1]);
        assert(valid_first_scalar(tail));
        is_char_boundary_iff_not_is_continuation_byte(s, i + 1);
    }
}

/// Every byte of the set is ASCII.
pub open spec fn ascii_set(set: Seq<u8>) -> bool {
    forall|k: int| 0 <= k < set.len() ==> (#[trigger] set[k]) < 0x80
}

/// Both endpoints of every span lie on character boundaries.
pub open spec fn spans_on_boundaries(l: Seq<Span>, s: Seq<u8>) -> bool {
    forall|k: int|
        0 <= k < l.len() ==> is_char_boundary(s, (#[trigger] l[k]).start as int)
            && is_char_boundary(s, l[k].end as int)
}

/// The segmenter's ranges have their endpoints on character boundaries:
/// every range starts at an ASCII start character and ends right after an
/// ASCII character, at an ASCII newline, or at the end of the text.
pub proof fn lemma_seg_boundaries(s: Seq<u8>, cset: Seq<u8>, sset: Seq<u8>, pos: int)
    requires
        valid_utf8(s),
        ascii_set(cset),
        ascii_set(sset),
        0 <= pos <= s.len() <= usize::MAX,
    ensures
        ({
            let r = seg_from(s, cset, sset, pos);
            &&& spans_on_boundaries(r.0, s)
            &&& spans_on_boundaries(r.1, s)
            &&& spans_on_boundaries(r.2, s)
        }),
    decreases s.len() - pos,
{
    lemma_next_start(s, cset, sset, pos);
    match next_start(s, cset, sset, pos) {
        None => {},
        Some(i) => {
            lemma_parse_comment_bounds(s, i);
            lemma_parse_string_bounds(s, i);
            is_char_boundary_iff_not_is_continuation_byte(s, i);
            assert(s[i] < 0x80);
            let pc = if cset.contains(s[i]) {
                parse_comment_spec(s, i)
            } else {
                None
            };
            let ps = if pc is None && sset.contains(s[i]) {
                parse_string_spec(s, i)
            } else {
                None
            };
            match (pc, ps) {
                (Some(Ok(n)), _) => {
                    lemma_seg_boundaries(s, cset, sset, i + n);
                    lemma_head_end_boundary_comment(s, i, n);
                    let r = seg_from(s, cset, sset, pos);
                    let rest = seg_from(s, cset, sset, i + n);
                    assert(forall|k: int| 1 <= k < r.0.len() ==> r.0[k] == rest.0[k - 1]);
                },
                (Some(Err(n)), _) => {
                    lemma_seg_boundaries(s, cset, sset, i + n);
                    is_char_boundary_start_end_of_seq(s);
                    let r = seg_from(s, cset, sset, pos);
                    let rest = seg_from(s, cset, sset, i + n);
                    assert(forall|k: int| 1 <= k < r.2.len() ==> r.2[k] == rest.2[k - 1]);
                },
                (None, Some(Ok(n))) => {
                    lemma_seg_boundaries(s, cset, sset, i + n);
                    // a string ends right after its ASCII closing quote
                    lemma_find_byte_from(s, s[i], i + 1);
                    lemma_boundary_after_ascii(s, i + n - 1);
                    let r = seg_from(s, cset, sset, pos);
                    let rest = seg_from(s, cset, sset, i + n);
                    assert(forall|k: int| 1 <= k < r.1.len() ==> r.1[k] == rest.1[k - 1]);
                },
                (None, Some(Err(n))) => {
                    lemma_seg_boundaries(s, cset, sset, i + n);
                    is_char_boundary_start_end_of_seq(s);
                    let r = seg_from(s, cset, sset, pos);
                    let rest = seg_from(s, cset, sset, i + n);
                    assert(forall|k: int| 1 <= k < r.2.len() ==> r.2[k] == rest.2[k - 1]);
                },
                (None, None) => {
                    lemma_seg_boundaries(s, cset, sset, i + 1);
                },
            }
        },
    }
}

/// The end of a comment range is a boundary: a line comment stops at an
/// ASCII newline or the end of text, a block comment right after `*/`.
proof fn lemma_head_end_boundary_comment(s: Seq<u8>, i: int, n: int)
    requires
        valid_utf8(s),
        0 <= i < s.len(),
        parse_comment_spec(s, i) == Some(Ok::<int, int>(n)),
        1 <= n && i + n <= s.len(),
    ensures
        is_char_boundary(s, i + n),
{
    if s[i] == crate::source_map::PERCENT {
        lemma_find_byte_from(s, crate::source_map::NEWLINE, i);
        if i + n == s.len() {
            is_char_boundary_start_end_of_seq(s);
        } else {
            assert(s[i + n] == crate::source_map::NEWLINE);
            is_char_boundary_iff_not_is_continuation_byte(s, i + n);
        }
    } else {
        lemma_nested_end(s, i + 2, 1);
        assert(s[i + n - 1] == crate::source_map::SLASH);
        lemma_boundary_after_ascii(s, i + n - 1);
    }
}

/// Concatenation of byte ranges named by bounds.
pub open spec fn concat_bounds(s: Seq<u8>, bounds: Seq<(int, int)>) -> Seq<u8>
    decreases bounds.len(),
{
    if bounds.len() == 0 {
        Seq::<u8>::empty()
    } else {
        s.subrange(bounds[0].0, bounds[0].1) + concat_bounds(s, bounds.skip(1))
    }
}

/// The chunker's bounds concatenate back to the whole remaining text.
pub proof fn lemma_chunks_concat(c: &Chunk, aset: Seq<u8>, p: int)
    requires
        0 <= p <= c@.len(),
    ensures
        concat_bounds(c@, chunk_bounds_from(c, aset, p)) == c@.subrange(p, c@.len() as int),
    decreases c@.len() - p,
{
    lemma_cut_end(c, aset, p);
    if p >= c@.len() {
        assert(concat_bounds(c@, chunk_bounds_from(c, aset, p)) =~= c@.subrange(
            p,
            c@.len() as int,
        ));
    } else {
        let e = cut_end(c, aset, p);
        lemma_chunks_concat(c, aset, e);
        let bounds = chunk_bounds_from(c, aset, p);
        assert(bounds.skip(1) =~= chunk_bounds_from(c, aset, e));
        assert(c@.subrange(p, e) + c@.subrange(e, c@.len() as int) =~= c@.subrange(
            p,
            c@.len() as int,
        ));
    }
}

/// The texts of a chunk list concatenated.
pub open spec fn concat_chunk_texts(cs: Seq<Chunk>) -> Seq<u8>
    decreases cs.len(),
{
    if cs.len() == 0 {
        Seq::<u8>::empty()
    } else {
        cs[0]@ + concat_chunk_texts(cs.skip(1))
    }
}

/// A chunk list whose texts are exactly the bound ranges concatenates to
/// the same bytes as the bounds.
pub proof fn lemma_chunk_texts_concat(s: Seq<u8>, cs: Seq<Chunk>, bounds: Seq<(int, int)>)
    requires
        cs.len() == bounds.len(),
        forall|j: int| 0 <= j < bounds.len() ==> (#[trigger] cs[j])@ == s.subrange(
            bounds[j].0,
            bounds[j].1,
        ),
    ensures
        concat_chunk_texts(cs) == concat_bounds(s, bounds),
    decreases cs.len(),
{
    if cs.len() > 0 {
        assert(forall|j: int| 0 <= j < bounds.skip(1).len() ==> bounds.skip(1)[j] == bounds[j + 1]);
        assert(forall|j: int| 0 <= j < cs.skip(1).len() ==> cs.skip(1)[j] == cs[j + 1]);
        lemma_chunk_texts_concat(s, cs.skip(1), bounds.skip(1));
    }
}

/// The tokens contiguously and exactly cover `[from, to)`, each non-empty.
pub open spec fn tokens_cover(ts: Seq<Token>, from: int, to: int) -> bool {
    &&& (ts.len() == 0 ==> from == to)
    &&& (ts.len() > 0 ==> ts[0].span.start == from && ts[ts.len() - 1].span.end == to)
    &&& forall|k: int| 0 <= k < ts.len() ==> (#[trigger] ts[k]).span.start < ts[k].span.end
    &&& forall|k: int|
        #![trigger ts[k], ts[k + 1]]
        0 <= k < ts.len() - 1 ==> ts[k].span.end == ts[k + 1].span.start
}

/// Two covering token lists laid end to end cover the whole stretch.
proof fn lemma_cover_concat(a: Seq<Token>, b: Seq<Token>, from: int, mid: int, to: int)
    requires
        tokens_cover(a, from, mid),
        tokens_cover(b, mid, to),
    ensures
        tokens_cover(a + b, from, to),
{
    let r = a + b;
    if a.len() == 0 {
        assert(r =~= b);
    } else if b.len() == 0 {
        assert(r =~= a);
    } else {
        assert(r[0] == a[0]);
        assert(r[r.len() - 1] == b[b.len() - 1]);
        assert forall|k: int| 0 <= k < r.len() implies (#[trigger] r[k]).span.start
            < r[k].span.end by {
            if k < a.len() {
                assert(r[k] == a[k]);
            } else {
                assert(r[k] == b[k - a.len()]);
            }
        }
        assert forall|k: int|
            #![trigger r[k], r[k + 1]]
            0 <= k < r.len() - 1 implies r[k].span.end == r[k + 1].span.start by {
            if k < a.len() - 1 {
                assert(r[k] == a[k]);
                assert(r[k + 1] == a[k + 1]);
                assert(a[k].span.end == a[k + 1].span.start);
            } else if k == a.len() - 1 {
                assert(r[k] == a[a.len() - 1]);
                assert(r[k + 1] == b[0]);
            } else {
                assert(r[k] == b[k - a.len()]);
                assert(r[k + 1] == b[k + 1 - a.len()]);
                assert(b[k - a.len()].span.end == b[k - a.len() + 1].span.start);
            }
        }
    }
}

/// A single non-empty token covers its own span.
proof fn lemma_cover_single(t: Token)
    requires
        t.span.start < t.span.end,
    ensures
        tokens_cover(seq![t], t.span.start as int, t.span.end as int),
{
    assert(seq![t][0] == t);
}

/// The tokens of an unknown region partition it.
pub proof fn lemma_lex_unknown_cover(s: Seq<u8>, i: int, re: int)
    requires
        0 <= i <= re <= s.len() <= usize::MAX,
    ensures
        tokens_cover(lex_unknown(s, i, re), i, re),
    decreases re - i,
{
    if i < re {
        lemma_run_end(s, i, re, NextToken::Whitespace);
        lemma_run_end(s, i, re, NextToken::Word);
        lemma_run_end(s, i + lex_width(s, i, re), re, NextToken::Error);
        lemma_sigil_match_len(s, i, re);
        let r = lex_unknown(s, i, re);
        let e: int = match class_at(s, i, re) {
            NextToken::Whitespace => run_end(s, i, re, NextToken::Whitespace),
            NextToken::Word => run_end(s, i, re, NextToken::Word),
            NextToken::Sigil => match sigil_match(s, i, re) {
                Some(g) => i + g.lexeme_bytes().len(),
                None => crate::lexer::error_run_end(s, i, re),
            },
            NextToken::Error => crate::lexer::error_run_end(s, i, re),
        };
        let kind = match class_at(s, i, re) {
            NextToken::Whitespace => crate::lexer::TokenKind::Whitespace,
            NextToken::Word => crate::lexer::TokenKind::Word,
            NextToken::Sigil => match sigil_match(s, i, re) {
                Some(g) => crate::lexer::TokenKind::Sigil(g),
                None => crate::lexer::TokenKind::Error,
            },
            NextToken::Error => crate::lexer::TokenKind::Error,
        };
        let tok = Token { span: Span { start: i as usize, end: e as usize }, kind };
        assert(i < e <= re);
        assert(r == seq![tok] + lex_unknown(s, e, re));
        lemma_lex_unknown_cover(s, e, re);
        lemma_cover_single(tok);
        lemma_cover_concat(seq![tok], lex_unknown(s, e, re), i, e, re);
    }
}

/// The tokens of a contiguous range list partition the whole stretch.
pub proof fn lemma_lex_ranges_cover(c: &Chunk, rs: Seq<(Span, RangeKind)>, from: int, to: int)
    requires
        c@.len() <= usize::MAX,
        rs.len() == 0 ==> from == to,
        rs.len() > 0 ==> rs[0].0.start == from && rs[rs.len() - 1].0.end == to,
        forall|k: int| 0 <= k < rs.len() ==> (#[trigger] rs[k]).0.start < rs[k].0.end <= c@.len(),
        forall|k: int|
            #![trigger rs[k], rs[k + 1]]
            0 <= k < rs.len() - 1 ==> rs[k].0.end == rs[k + 1].0.start,
        0 <= from,
    ensures
        tokens_cover(lex_ranges(c, rs), from, to),
    decreases rs.len(),
{
    if rs.len() > 0 {
        let sp = rs[0].0;
        assert(forall|k: int| 0 <= k < rs.skip(1).len() ==> rs.skip(1)[k] == rs[k + 1]);
        lemma_lex_ranges_cover(c, rs.skip(1), sp.end as int, to);
        let head_toks = match rs[0].1 {
            RangeKind::Comment => seq![
                Token { span: sp, kind: crate::lexer::TokenKind::Comment },
            ],
            RangeKind::String => seq![Token { span: sp, kind: crate::lexer::TokenKind::String }],
            RangeKind::Error => seq![Token { span: sp, kind: crate::lexer::TokenKind::Error }],
            RangeKind::Unknown => lex_unknown(c@, sp.start as int, sp.end as int),
        };
        match rs[0].1 {
            RangeKind::Unknown => {
                lemma_lex_unknown_cover(c@, sp.start as int, sp.end as int);
            },
            RangeKind::Comment => {
                lemma_cover_single(Token { span: sp, kind: crate::lexer::TokenKind::Comment });
            },
            RangeKind::String => {
                lemma_cover_single(Token { span: sp, kind: crate::lexer::TokenKind::String });
            },
            RangeKind::Error => {
                lemma_cover_single(Token { span: sp, kind: crate::lexer::TokenKind::Error });
            },
        }
        assert(tokens_cover(head_toks, sp.start as int, sp.end as int));
        assert(lex_ranges(c, rs) == head_toks + lex_ranges(c, rs.skip(1)));
        lemma_cover_concat(head_toks, lex_ranges(c, rs.skip(1)), from, sp.end as int, to);
    }
}

/// Tokenizer partition law: for every well-formed chunk, the token spans of
/// its lex partition the chunk text exactly.
pub proof fn law_tokenizer_partition(c: &Chunk)
    requires
        c.wf(),
        c@.len() <= usize::MAX,
    ensures
        tokens_cover(lex_spec(c), 0, c@.len() as int),
{
    crate::chunk::lemma_merged_cover(c, 0);
    lemma_lex_ranges_cover(c, c.merged_from(0), 0, c@.len() as int);
}

/// Concatenation of the text slices named by a token list.
pub open spec fn concat_token_slices(s: Seq<u8>, ts: Seq<Token>) -> Seq<u8>
    decreases ts.len(),
{
    if ts.len() == 0 {
        Seq::<u8>::empty()
    } else {
        s.subrange(ts[0].span.start as int, ts[0].span.end as int) + concat_token_slices(
            s,
            ts.skip(1),
        )
    }
}

/// A covered stretch runs forward.
proof fn lemma_cover_start_le_end(ts: Seq<Token>, from: int, to: int)
    requires
        tokens_cover(ts, from, to),
    ensures
        from <= to,
    decreases ts.len(),
{
    if ts.len() > 0 {
        let tail = ts.skip(1);
        assert(forall|k: int| 0 <= k < tail.len() ==> tail[k] == ts[k + 1]);
        if ts.len() > 1 {
            assert(tail[0] == ts[1]);
            assert(ts[0].span.end == ts[1].span.start);
            assert(tail[tail.len() - 1] == ts[ts.len() - 1]);
            assert forall|k: int| 0 <= k < tail.len() implies (#[trigger] tail[k]).span.start
                < tail[k].span.end by {
                assert(tail[k] == ts[k + 1]);
            }
            assert forall|k: int|
                #![trigger tail[k], tail[k + 1]]
                0 <= k < tail.len() - 1 implies tail[k].span.end == tail[k + 1].span.start by {
                assert(tail[k] == ts[k + 1]);
                assert(tail[k + 1] == ts[k + 2]);
                assert(ts[k + 1].span.end == ts[k + 2].span.start);
            }
            assert(tokens_cover(tail, ts[0].span.end as int, to));
            lemma_cover_start_le_end(tail, ts[0].span.end as int, to);
        }
    }
}

/// Round-trip law: the text slices of a covering token list concatenate
/// back to the covered bytes.
pub proof fn lemma_tokens_reconstruct(s: Seq<u8>, ts: Seq<Token>, from: int, to: int)
    requires
        tokens_cover(ts, from, to),
        0 <= from <= to <= s.len(),
    ensures
        concat_token_slices(s, ts) == s.subrange(from, to),
    decreases ts.len(),
{
    if ts.len() == 0 {
        assert(concat_token_slices(s, ts) =~= s.subrange(from, to));
    } else {
        let e = ts[0].span.end as int;
        let tail = ts.skip(1);
        assert(forall|k: int| 0 <= k < tail.len() ==> tail[k] == ts[k + 1]);
        assert forall|k: int| 0 <= k < tail.len() implies (#[trigger] tail[k]).span.start
            < tail[k].span.end by {
            assert(tail[k] == ts[k + 1]);
        }
        assert forall|k: int|
            #![trigger tail[k], tail[k + 1]]
            0 <= k < tail.len() - 1 implies tail[k].span.end == tail[k + 1].span.start by {
            assert(tail[k] == ts[k + 1]);
            assert(tail[k + 1] == ts[k + 2]);
            assert(ts[k + 1].span.end == ts[k + 2].span.start);
        }
        if ts.len() > 1 {
            assert(tail[0] == ts[1]);
            assert(ts[0].span.end == ts[1].span.start);
            assert(tail[tail.len() - 1] == ts[ts.len() - 1]);
        }
        assert(tokens_cover(tail, e, to));
        assert(e <= to) by {
            if ts.len() > 1 {
                lemma_cover_start_le_end(tail, e, to);
            }
        }
        lemma_tokens_reconstruct(s, tail, e, to);
        assert(s.subrange(from, e) + s.subrange(e, to) =~= s.subrange(from, to));
    }
}

/// Round-trip law at the pipeline level: tokenizing a well-formed chunk and
/// concatenating the token slices reconstructs the chunk text.
#[verifier::spinoff_prover]
#[verifier::rlimit(100)]
pub proof fn law_round_trip(c: &Chunk)
    requires
        c.wf(),
        c@.len() <= usize::MAX,
    ensures
        concat_token_slices(c@, lex_spec(c)) == c@,
{
    law_tokenizer_partition(c);
    lemma_tokens_reconstruct(c@, lex_spec(c), 0, c@.len() as int);
    assert(c@.subrange(0, c@.len() as int) =~= c@);
}

/// Empty input law: an empty text yields no ranges, no chunks, no tokens,
/// no branches and no diagnostics.
pub proof fn law_empty_input(c: &Chunk, cset: Seq<u8>, sset: Seq<u8>, aset: Seq<u8>)
    requires
        c@.len() == 0,
        c.wf(),
    ensures
        seg_from(c@, cset, sset, 0) == (Seq::<Span>::empty(), Seq::<Span>::empty(), Seq::<
            Span,
        >::empty()),
        chunk_bounds_from(c, aset, 0) == Seq::<(int, int)>::empty(),
        lex_spec(c) == Seq::<Token>::empty(),
        crate::bracer::bracer_spec(Seq::<crate::lexer::TokenKind>::empty())
            == crate::bracer::st_init(),
{
    assert(next_start(c@, cset, sset, 0) is None);
    assert(c.merged_from(0) =~= Seq::<(Span, RangeKind)>::empty());
    assert(crate::bracer::br_fold(Seq::<crate::lexer::TokenKind>::empty(), 0, crate::bracer::st_init())
        == crate::bracer::st_init());
}

/// Re-running a stage on the same input produces a value-equal output:
/// every stage's executable function ensures that its result equals a
/// specification function of the input alone.
pub proof fn law_rerun_value_equal(
    s: Seq<u8>,
    cset: Seq<u8>,
    sset: Seq<u8>,
    a: (Seq<Span>, Seq<Span>, Seq<Span>),
    b: (Seq<Span>, Seq<Span>, Seq<Span>),
    kinds: Seq<crate::lexer::TokenKind>,
    ta: crate::bracer::BrState,
    tb: crate::bracer::BrState,
)
    requires
        a == seg_from(s, cset, sset, 0),
        b == seg_from(s, cset, sset, 0),
        ta == crate::bracer::bracer_spec(kinds),
        tb == crate::bracer::bracer_spec(kinds),
    ensures
        a == b,
        ta == tb,
{
}

} // verus!
