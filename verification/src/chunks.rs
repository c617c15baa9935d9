//! Chunker: splits a segmented document at anchor characters into chunks.
//!
//! A cut is made after each anchor byte that lies in unknown territory; the
//! anchor ends its chunk. Classified spans never straddle a cut, and each is
//! re-based to its chunk. Concatenating the chunks restores the document.

use vstd::prelude::*;

use crate::chunk::{spans_wf, spans_disjoint, Chunk};
use crate::text::{Span, Text};

verus! {

/// The byte value of the default anchor character.
pub const DOT: u8 = 46;

/// The anchor characters at which a chunk may end.
///
/// The boundary rule is fixed: an anchor ends its chunk after exactly one
/// byte, the default rule. A pluggable boundary predicate would be a
/// function value that no contract could describe, so the configuration
/// carries only the anchor set. The anchors are byte values; multi-byte
/// characters cannot serve as anchors.
pub struct Config {
    /// Bytes after which a chunk boundary is made, anchor included.
    pub chunk_start_chars: Vec<u8>,
}

/// The default configuration: a chunk ends after each `.`.
pub fn basic_config() -> (c: Config)
    ensures
        c.chunk_start_chars@ == seq![DOT],
{
    let c = Config { chunk_start_chars: vec![DOT] };
    proof {
        assert(c.chunk_start_chars@ =~= seq![DOT]);
    }
    c
}

/// Where the chunk that starts at `p` ends: one past the first anchor byte
/// at or after `p` that no classified span covers, or the end of the text.
pub open spec fn cut_end(c: &Chunk, aset: Seq<u8>, p: int) -> int
    decreases c@.len() - p when 0 <= p <= c@.len()
{
    if p >= c@.len() {
        c@.len() as int
    } else if aset.contains(c@[p]) && !c.in_known(p) {
        p + 1
    } else {
        cut_end(c, aset, p + 1)
    }
}

pub proof fn lemma_cut_end(c: &Chunk, aset: Seq<u8>, p: int)
    requires
        0 <= p <= c@.len(),
    ensures
        p == c@.len() ==> cut_end(c, aset, p) == p,
        p < c@.len() ==> p < cut_end(c, aset, p) <= c@.len(),
    decreases c@.len() - p,
{
    if p < c@.len() && !(aset.contains(c@[p]) && !c.in_known(p)) {
        lemma_cut_end(c, aset, p + 1);
    }
}

/// The chunk boundaries from `p` on: maximal stretches between cuts.
pub open spec fn chunk_bounds_from(c: &Chunk, aset: Seq<u8>, p: int) -> Seq<(int, int)>
    decreases c@.len() - p when 0 <= p <= c@.len() via chunk_bounds_dec
{
    if p >= c@.len() {
        Seq::<(int, int)>::empty()
    } else {
        let e = cut_end(c, aset, p);
        seq![(p, e)] + chunk_bounds_from(c, aset, e)
    }
}

#[via_fn]
proof fn chunk_bounds_dec(c: &Chunk, aset: Seq<u8>, p: int) {
    lemma_cut_end(c, aset, p);
}

/// The spans of `l` that lie inside `[a, b)`, re-based to `a`.
pub open spec fn spans_in(l: Seq<Span>, a: int, b: int) -> Seq<Span>
    decreases l.len(),
{
    if l.len() == 0 {
        Seq::<Span>::empty()
    } else {
        let rest = spans_in(l.skip(1), a, b);
        if a <= l[0].start && l[0].end <= b {
            seq![Span { start: (l[0].start - a) as usize, end: (l[0].end - a) as usize }] + rest
        } else {
            rest
        }
    }
}

/// Every span of the list is ordered.
pub open spec fn spans_ordered(l: Seq<Span>) -> bool {
    forall|k: int| 0 <= k < l.len() ==> (#[trigger] l[k]).start <= l[k].end
}

/// Each re-based span of `spans_in(l, a, b)` comes from a span of `l`.
pub proof fn lemma_spans_in_member(l: Seq<Span>, a: int, b: int)
    requires
        0 <= a <= b,
        spans_ordered(l),
    ensures
        forall|j: int|
            0 <= j < spans_in(l, a, b).len() ==> exists|k: int|
                0 <= k < l.len() && a <= (#[trigger] l[k]).start && l[k].end <= b && (
                #[trigger] spans_in(l, a, b)[j]) == (Span {
                    start: (l[k].start - a) as usize,
                    end: (l[k].end - a) as usize,
                }),
    decreases l.len(),
{
    if l.len() > 0 {
        assert(spans_ordered(l.skip(1))) by {
            assert(forall|k: int| 0 <= k < l.skip(1).len() ==> l.skip(1)[k] == l[k + 1]);
        }
        lemma_spans_in_member(l.skip(1), a, b);
        let r = spans_in(l, a, b);
        let rest = spans_in(l.skip(1), a, b);
        assert forall|j: int| 0 <= j < r.len() implies exists|k: int|
            0 <= k < l.len() && a <= (#[trigger] l[k]).start && l[k].end <= b && (#[trigger] r[j])
                == (Span {
                start: (l[k].start - a) as usize,
                end: (l[k].end - a) as usize,
            }) by {
            if a <= l[0].start && l[0].end <= b {
                if j > 0 {
                    assert(r[j] == rest[j - 1]);
                    let k = choose|k: int|
                        0 <= k < l.skip(1).len() && a <= (#[trigger] l.skip(1)[k]).start && l.skip(
                            1,
                        )[k].end <= b && rest[j - 1] == (Span {
                            start: (l.skip(1)[k].start - a) as usize,
                            end: (l.skip(1)[k].end - a) as usize,
                        });
                    assert(l[k + 1] == l.skip(1)[k]);
                } else {
                    assert(r[0] == (Span {
                        start: (l[0].start - a) as usize,
                        end: (l[0].end - a) as usize,
                    }));
                }
            } else {
                assert(r[j] == rest[j]);
                let k = choose|k: int|
                    0 <= k < l.skip(1).len() && a <= (#[trigger] l.skip(1)[k]).start && l.skip(
                        1,
                    )[k].end <= b && rest[j] == (Span {
                        start: (l.skip(1)[k].start - a) as usize,
                        end: (l.skip(1)[k].end - a) as usize,
                    });
                assert(l[k + 1] == l.skip(1)[k]);
            }
        }
    }
}

/// An ordered list of chunks whose concatenation is the source document.
pub struct Chunks {
    pub chunks: Vec<Chunk>,
}

/// Collect the spans of `l` inside `[a, b)`, re-based to `a`.
fn collect_spans(l: &Vec<Span>, a: usize, b: usize) -> (v: Vec<Span>)
    requires
        a <= b,
        spans_ordered(l@),
    ensures
        v@ == spans_in(l@, a as int, b as int),
{
    proof {
        assert(l@.skip(0) =~= l@);
    }
    let mut v: Vec<Span> = Vec::new();
    let mut k: usize = 0;
    while k < l.len()
        invariant
            0 <= k <= l@.len(),
            a <= b,
            spans_ordered(l@),
            spans_in(l@, a as int, b as int) == v@ + spans_in(l@.skip(k as int), a as int, b as int),
        decreases l@.len() - k,
    {
        proof {
            assert(l@.skip(k as int)[0] == l@[k as int]);
            assert(l@.skip(k as int).skip(1) =~= l@.skip(k as int + 1));
        }
        let ghost old_v = v@;
        let sp = l[k];
        if a <= sp.start && sp.end <= b {
            v.push(Span { start: sp.start - a, end: sp.end - a });
        }
        k = k + 1;
        proof {
            assert(v@ + spans_in(l@.skip(k as int), a as int, b as int) =~= old_v + spans_in(
                l@.skip(k as int - 1),
                a as int,
                b as int,
            ));
        }
    }
    proof {
        assert(l@.skip(l@.len() as int) =~= Seq::<Span>::empty());
        assert(v@ + spans_in(l@.skip(k as int), a as int, b as int) =~= v@);
    }
    v
}

/// Test whether any classified span covers byte `i`.
fn in_known_exec(c: &Chunk, i: usize) -> (r: bool)
    requires
        i < c@.len(),
    ensures
        r == c.in_known(i as int),
{
    let mut k: usize = 0;
    while k < c.comments.len()
        invariant
            0 <= k <= c.comments@.len(),
            forall|j: int|
                0 <= j < k ==> ((i as int) < (#[trigger] c.comments@[j]).start
                    || c.comments@[j].end <= i as int),
        decreases c.comments@.len() - k,
    {
        if c.comments[k].start <= i && i < c.comments[k].end {
            return true;
        }
        k = k + 1;
    }
    let mut k: usize = 0;
    while k < c.strings.len()
        invariant
            0 <= k <= c.strings@.len(),
            forall|j: int|
                0 <= j < k ==> ((i as int) < (#[trigger] c.strings@[j]).start
                    || c.strings@[j].end <= i as int),
        decreases c.strings@.len() - k,
    {
        if c.strings[k].start <= i && i < c.strings[k].end {
            return true;
        }
        k = k + 1;
    }
    let mut k: usize = 0;
    while k < c.errors.len()
        invariant
            0 <= k <= c.errors@.len(),
            forall|j: int|
                0 <= j < k ==> ((i as int) < (#[trigger] c.errors@[j]).start
                    || c.errors@[j].end <= i as int),
        decreases c.errors@.len() - k,
    {
        if c.errors[k].start <= i && i < c.errors[k].end {
            return true;
        }
        k = k + 1;
    }
    false
}

/// Find the end of the chunk that starts at `p`.
fn cut_end_exec(c: &Chunk, config: &Config, p: usize) -> (e: usize)
    requires
        p <= c@.len(),
    ensures
        e as int == cut_end(c, config.chunk_start_chars@, p as int),
        p < c@.len() ==> p < e <= c@.len(),
        p == c@.len() ==> e == p,
{
    proof {
        lemma_cut_end(c, config.chunk_start_chars@, p as int);
    }
    let n = c.text.len();
    let mut q: usize = p;
    while q < n
        invariant
            p <= q <= n,
            n == c@.len(),
            cut_end(c, config.chunk_start_chars@, p as int) == cut_end(
                c,
                config.chunk_start_chars@,
                q as int,
            ),
        decreases n - q,
    {
        let b = c.text.byte_at(q);
        if crate::chunks::byte_in_set(&config.chunk_start_chars, b) && !in_known_exec(c, q) {
            return q + 1;
        }
        q = q + 1;
    }
    n
}

/// Byte membership in a small set.
pub(crate) fn byte_in_set(set: &Vec<u8>, b: u8) -> (r: bool)
    ensures
        r == set@.contains(b),
{
    let mut i: usize = 0;
    while i < set.len()
        invariant
            0 <= i <= set@.len(),
            forall|j: int| 0 <= j < i ==> set@[j] != b,
        decreases set@.len() - i,
    {
        if set[i] == b {
            return true;
        }
        i = i + 1;
    }
    false
}

/// Split a segmented document into chunks at the configured anchors.
///
/// The chunk bounds are exactly the stretches between cuts; each chunk owns
/// a copy of its text and the classified spans inside it, re-based, and
/// satisfies the document invariant.
pub fn chunks(chunk_in: &Chunk, config: &Config) -> (r: Chunks)
    requires
        chunk_in.wf(),
    ensures
        ({
            let bounds = chunk_bounds_from(chunk_in, config.chunk_start_chars@, 0);
            &&& r.chunks@.len() == bounds.len()
            &&& forall|j: int|
                0 <= j < bounds.len() ==> (#[trigger] r.chunks@[j])@ == chunk_in@.subrange(
                    bounds[j].0,
                    bounds[j].1,
                )
            &&& forall|j: int|
                0 <= j < bounds.len() ==> (#[trigger] r.chunks@[j]).comments@ == spans_in(
                    chunk_in.comments@,
                    bounds[j].0,
                    bounds[j].1,
                )
            &&& forall|j: int|
                0 <= j < bounds.len() ==> (#[trigger] r.chunks@[j]).strings@ == spans_in(
                    chunk_in.strings@,
                    bounds[j].0,
                    bounds[j].1,
                )
            &&& forall|j: int|
                0 <= j < bounds.len() ==> (#[trigger] r.chunks@[j]).errors@ == spans_in(
                    chunk_in.errors@,
                    bounds[j].0,
                    bounds[j].1,
                )
            &&& forall|j: int| 0 <= j < bounds.len() ==> (#[trigger] r.chunks@[j]).wf()
        }),
{
    let ghost aset = config.chunk_start_chars@;
    let n = chunk_in.text.len();
    let mut out: Vec<Chunk> = Vec::new();
    let ghost bounds = chunk_bounds_from(chunk_in, aset, 0);
    let ghost mut done: Seq<(int, int)> = Seq::empty();
    let mut p: usize = 0;
    proof {
        assert(bounds =~= done + chunk_bounds_from(chunk_in, aset, 0));
    }
    while p < n
        invariant
            0 <= p <= n,
            n == chunk_in@.len(),
            chunk_in.wf(),
            aset == config.chunk_start_chars@,
            bounds == chunk_bounds_from(chunk_in, aset, 0),
            bounds =~= done + chunk_bounds_from(chunk_in, aset, p as int),
            out@.len() == done.len(),
            forall|j: int|
                0 <= j < done.len() ==> (#[trigger] out@[j])@ == chunk_in@.subrange(
                    done[j].0,
                    done[j].1,
                ),
            forall|j: int|
                0 <= j < done.len() ==> (#[trigger] out@[j]).comments@ == spans_in(
                    chunk_in.comments@,
                    done[j].0,
                    done[j].1,
                ),
            forall|j: int|
                0 <= j < done.len() ==> (#[trigger] out@[j]).strings@ == spans_in(
                    chunk_in.strings@,
                    done[j].0,
                    done[j].1,
                ),
            forall|j: int|
                0 <= j < done.len() ==> (#[trigger] out@[j]).errors@ == spans_in(
                    chunk_in.errors@,
                    done[j].0,
                    done[j].1,
                ),
            forall|j: int| 0 <= j < done.len() ==> (#[trigger] out@[j]).wf(),
        decreases n - p,
    {
        let e = cut_end_exec(chunk_in, config, p);
        proof {
            assert(spans_ordered(chunk_in.comments@));
            assert(spans_ordered(chunk_in.strings@));
            assert(spans_ordered(chunk_in.errors@));
        }
        let text = Text::new(chunk_in.text.slice_to_vec(Span { start: p, end: e }));
        let comments = collect_spans(&chunk_in.comments, p, e);
        let strings = collect_spans(&chunk_in.strings, p, e);
        let errors = collect_spans(&chunk_in.errors, p, e);
        let piece = Chunk { text, comments, strings, errors };
        proof {
            lemma_chunk_piece_wf(chunk_in, p as int, e as int, &piece);
        }
        out.push(piece);
        proof {
            done = done.push((p as int, e as int));
            assert(done + chunk_bounds_from(chunk_in, aset, e as int) =~= done.drop_last() + (seq![
                (p as int, e as int),
            ] + chunk_bounds_from(chunk_in, aset, e as int)));
        }
        p = e;
    }
    proof {
        assert(chunk_bounds_from(chunk_in, aset, p as int) =~= Seq::<(int, int)>::empty());
        assert(done =~= bounds);
    }
    Chunks { chunks: out }
}

/// A piece cut at `[a, b)` from a well-formed document is well-formed.
proof fn lemma_chunk_piece_wf(c: &Chunk, a: int, b: int, piece: &Chunk)
    requires
        c.wf(),
        0 <= a <= b <= c@.len(),
        piece@.len() == b - a,
        piece.comments@ == spans_in(c.comments@, a, b),
        piece.strings@ == spans_in(c.strings@, a, b),
        piece.errors@ == spans_in(c.errors@, a, b),
    ensures
        piece.wf(),
{
    assert(spans_ordered(c.comments@));
    assert(spans_ordered(c.strings@));
    assert(spans_ordered(c.errors@));
    lemma_spans_in_member(c.comments@, a, b);
    lemma_spans_in_member(c.strings@, a, b);
    lemma_spans_in_member(c.errors@, a, b);
    lemma_spans_in_sorted(c.comments@, a, b, c@.len() as int);
    lemma_spans_in_sorted(c.strings@, a, b, c@.len() as int);
    lemma_spans_in_sorted(c.errors@, a, b, c@.len() as int);
    assert(spans_disjoint(piece.comments@, piece.strings@)) by {
        lemma_spans_in_disjoint(c.comments@, c.strings@, a, b);
    }
    assert(spans_disjoint(piece.comments@, piece.errors@)) by {
        lemma_spans_in_disjoint(c.comments@, c.errors@, a, b);
    }
    assert(spans_disjoint(piece.strings@, piece.errors@)) by {
        lemma_spans_in_disjoint(c.strings@, c.errors@, a, b);
    }
}

/// `spans_in` keeps spans non-empty, in `[0, b - a)`, sorted and disjoint.
proof fn lemma_spans_in_sorted(l: Seq<Span>, a: int, b: int, n: int)
    requires
        spans_wf(l, n),
        0 <= a <= b,
    ensures
        spans_wf(spans_in(l, a, b), b - a),
    decreases l.len(),
{
    if l.len() > 0 {
        assert(spans_wf(l.skip(1), n)) by {
            assert(forall|k: int| 0 <= k < l.skip(1).len() ==> l.skip(1)[k] == l[k + 1]);
        }
        lemma_spans_in_sorted(l.skip(1), a, b, n);
        lemma_spans_in_member(l.skip(1), a, b);
        let r = spans_in(l, a, b);
        let rest = spans_in(l.skip(1), a, b);
        if a <= l[0].start && l[0].end <= b {
            assert(forall|k: int| 1 <= k < r.len() ==> r[k] == rest[k - 1]);
            assert forall|k2: int| 1 <= k2 < r.len() implies r[0].end <= r[k2].start by {
                let j = k2 - 1;
                let k = choose|k: int|
                    0 <= k < l.skip(1).len() && a <= (#[trigger] l.skip(1)[k]).start && l.skip(
                        1,
                    )[k].end <= b && rest[j] == (Span {
                        start: (l.skip(1)[k].start - a) as usize,
                        end: (l.skip(1)[k].end - a) as usize,
                    });
                assert(l[k + 1] == l.skip(1)[k]);
            }
        }
    }
}

/// Re-basing two disjoint lists by the same offset keeps them disjoint.
proof fn lemma_spans_in_disjoint(x: Seq<Span>, y: Seq<Span>, a: int, b: int)
    requires
        spans_disjoint(x, y),
        0 <= a <= b,
        spans_ordered(x),
        spans_ordered(y),
    ensures
        spans_disjoint(spans_in(x, a, b), spans_in(y, a, b)),
{
    lemma_spans_in_member(x, a, b);
    lemma_spans_in_member(y, a, b);
    let rx = spans_in(x, a, b);
    let ry = spans_in(y, a, b);
    assert forall|k1: int, k2: int|
        0 <= k1 < rx.len() && 0 <= k2 < ry.len() implies (#[trigger] rx[k1]).disjoint(
        #[trigger] ry[k2],
    ) by {
        let i1 = choose|k: int|
            0 <= k < x.len() && a <= (#[trigger] x[k]).start && x[k].end <= b && rx[k1] == (Span {
                start: (x[k].start - a) as usize,
                end: (x[k].end - a) as usize,
            });
        let i2 = choose|k: int|
            0 <= k < y.len() && a <= (#[trigger] y[k]).start && y[k].end <= b && ry[k2] == (Span {
                start: (y[k].start - a) as usize,
                end: (y[k].end - a) as usize,
            });
        assert(x[i1].disjoint(y[i2]));
    }
}

/// Split a segmented document at the default anchors.
pub fn basic_chunks(chunk_in: &Chunk) -> (r: Chunks)
    requires
        chunk_in.wf(),
    ensures
        ({
            let bounds = chunk_bounds_from(chunk_in, seq![DOT], 0);
            &&& r.chunks@.len() == bounds.len()
            &&& forall|j: int|
                0 <= j < bounds.len() ==> (#[trigger] r.chunks@[j])@ == chunk_in@.subrange(
                    bounds[j].0,
                    bounds[j].1,
                )
            &&& forall|j: int|
                0 <= j < bounds.len() ==> (#[trigger] r.chunks@[j]).comments@ == spans_in(
                    chunk_in.comments@,
                    bounds[j].0,
                    bounds[j].1,
                )
            &&& forall|j: int|
                0 <= j < bounds.len() ==> (#[trigger] r.chunks@[j]).strings@ == spans_in(
                    chunk_in.strings@,
                    bounds[j].0,
                    bounds[j].1,
                )
            &&& forall|j: int|
                0 <= j < bounds.len() ==> (#[trigger] r.chunks@[j]).errors@ == spans_in(
                    chunk_in.errors@,
                    bounds[j].0,
                    bounds[j].1,
                )
            &&& forall|j: int| 0 <= j < bounds.len() ==> (#[trigger] r.chunks@[j]).wf()
        }),
{
    let config = basic_config();
    chunks(chunk_in, &config)
}

} // verus!
