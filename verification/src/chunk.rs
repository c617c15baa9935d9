//! A segmented document: text plus non-overlapping classified byte ranges.
//!
//! Bytes not covered by any of the three lists are implicitly `Unknown`.

use vstd::prelude::*;

use crate::text::{Span, Text};

verus! {

/// Classification of a byte range of a document.
#[derive(Clone, Copy, Debug, PartialEq, Eq, Structural)]
pub enum RangeKind {
    Comment,
    String,
    Error,
    Unknown,
}

/// A text together with three ordered lists of non-overlapping ranges.
pub struct Chunk {
    pub text: Text,
    pub comments: Vec<Span>,
    pub strings: Vec<Span>,
    pub errors: Vec<Span>,
}

/// Every span is non-empty, lies inside `[0, n)`, and the list is sorted
/// with pairwise-disjoint spans.
pub open spec fn spans_wf(l: Seq<Span>, n: int) -> bool {
    &&& forall|k: int| 0 <= k < l.len() ==> (#[trigger] l[k]).start < l[k].end <= n
    &&& forall|k1: int, k2: int|
        0 <= k1 < k2 < l.len() ==> (#[trigger] l[k1]).end <= (#[trigger] l[k2]).start
}

/// No span of one list shares a byte with a span of the other.
pub open spec fn spans_disjoint(a: Seq<Span>, b: Seq<Span>) -> bool {
    forall|k1: int, k2: int|
        0 <= k1 < a.len() && 0 <= k2 < b.len() ==> (#[trigger] a[k1]).disjoint(#[trigger] b[k2])
}

impl Chunk {
    /// The invariant of a segmented document: each list sorted and disjoint,
    /// the lists pairwise disjoint, every span non-empty and in bounds.
    pub open spec fn wf(&self) -> bool {
        &&& spans_wf(self.comments@, self@.len() as int)
        &&& spans_wf(self.strings@, self@.len() as int)
        &&& spans_wf(self.errors@, self@.len() as int)
        &&& spans_disjoint(self.comments@, self.strings@)
        &&& spans_disjoint(self.comments@, self.errors@)
        &&& spans_disjoint(self.strings@, self.errors@)
    }

    /// Byte `i` is covered by a span of one of the three lists.
    pub open spec fn in_known(&self, i: int) -> bool {
        ||| exists|k: int|
            0 <= k < self.comments@.len() && (#[trigger] self.comments@[k]).start <= i
                < self.comments@[k].end
        ||| exists|k: int|
            0 <= k < self.strings@.len() && (#[trigger] self.strings@[k]).start <= i
                < self.strings@[k].end
        ||| exists|k: int|
            0 <= k < self.errors@.len() && (#[trigger] self.errors@[k]).start <= i
                < self.errors@[k].end
    }

    /// The first position at or after `p` where a classified span starts,
    /// or the text length when none does.
    pub open spec fn next_known_start(&self, p: int) -> int {
        vstd::math::min(
            first_start_from(self.comments@, p, self@.len() as int),
            vstd::math::min(
                first_start_from(self.strings@, p, self@.len() as int),
                first_start_from(self.errors@, p, self@.len() as int),
            ),
        )
    }
}

impl View for Chunk {
    type V = Seq<u8>;

    open spec fn view(&self) -> Seq<u8> {
        self.text@
    }
}

/// First span start at or after `p` in a sorted list, or `n` when none.
pub open spec fn first_start_from(l: Seq<Span>, p: int, n: int) -> int
    decreases l.len(),
{
    if l.len() == 0 {
        n
    } else if l[0].start >= p {
        if l[0].start <= n {
            l[0].start as int
        } else {
            n
        }
    } else {
        first_start_from(l.skip(1), p, n)
    }
}

pub proof fn lemma_first_start_from(l: Seq<Span>, p: int, n: int)
    requires
        p <= n,
        spans_wf(l, n),
    ensures
        ({
            let m = first_start_from(l, p, n);
            &&& p <= m <= n
            &&& m < n ==> exists|k: int| 0 <= k < l.len() && (#[trigger] l[k]).start == m
            &&& forall|k: int|
                0 <= k < l.len() && p <= (#[trigger] l[k]).start && l[k].start <= n ==> m
                    <= l[k].start
        }),
    decreases l.len(),
{
    if l.len() > 0 && l[0].start < p {
        assert(spans_wf(l.skip(1), n)) by {
            assert(forall|k: int| 0 <= k < l.skip(1).len() ==> l.skip(1)[k] == l[k + 1]);
        }
        lemma_first_start_from(l.skip(1), p, n);
        let m = first_start_from(l.skip(1), p, n);
        assert forall|k: int|
            0 <= k < l.len() && p <= (#[trigger] l[k]).start && l[k].start <= n implies m
            <= l[k].start by {
            if k > 0 {
                assert(l.skip(1)[k - 1] == l[k]);
            }
        }
        if m < n {
            let k = choose|k: int| 0 <= k < l.skip(1).len() && (#[trigger] l.skip(1)[k]).start == m;
            assert(l[k + 1] == l.skip(1)[k]);
        }
    }
}

/// The span that starts exactly at `p`, if the list has one.
pub open spec fn find_span_starting(l: Seq<Span>, p: int) -> Option<Span>
    decreases l.len(),
{
    if l.len() == 0 {
        None
    } else if l[0].start == p {
        Some(l[0])
    } else {
        find_span_starting(l.skip(1), p)
    }
}

pub proof fn lemma_find_span_starting(l: Seq<Span>, p: int)
    ensures
        find_span_starting(l, p) matches Some(sp) ==> sp.start == p && exists|k: int|
            0 <= k < l.len() && l[k] == sp,
        find_span_starting(l, p) is None ==> forall|k: int|
            0 <= k < l.len() ==> (#[trigger] l[k]).start != p,
    decreases l.len(),
{
    if l.len() > 0 && l[0].start != p {
        lemma_find_span_starting(l.skip(1), p);
        match find_span_starting(l.skip(1), p) {
            Some(sp) => {
                let k = choose|k: int| 0 <= k < l.skip(1).len() && l.skip(1)[k] == sp;
                assert(l[k + 1] == l.skip(1)[k]);
            },
            None => {
                assert forall|k: int| 0 <= k < l.len() implies (#[trigger] l[k]).start != p by {
                    if k > 0 {
                        assert(l.skip(1)[k - 1] == l[k]);
                    }
                }
            },
        }
    }
}

/// Every span that starts before `p` also ends by `p`: the walk up to `p`
/// has consumed whole spans only.
pub open spec fn covered_before(c: &Chunk, p: int) -> bool {
    &&& forall|k: int|
        0 <= k < c.comments@.len() && (#[trigger] c.comments@[k]).start < p ==> c.comments@[k].end
            <= p
    &&& forall|k: int|
        0 <= k < c.strings@.len() && (#[trigger] c.strings@[k]).start < p ==> c.strings@[k].end
            <= p
    &&& forall|k: int|
        0 <= k < c.errors@.len() && (#[trigger] c.errors@[k]).start < p ==> c.errors@[k].end <= p
}

impl Chunk {
    /// The classified span that starts at `p`, with its kind, if any.
    pub open spec fn span_starting(&self, p: int) -> Option<(Span, RangeKind)> {
        match find_span_starting(self.comments@, p) {
            Some(sp) => Some((sp, RangeKind::Comment)),
            None => match find_span_starting(self.strings@, p) {
                Some(sp) => Some((sp, RangeKind::String)),
                None => match find_span_starting(self.errors@, p) {
                    Some(sp) => Some((sp, RangeKind::Error)),
                    None => None,
                },
            },
        }
    }

    /// The ordered interleaving of the document from byte `p` on: classified
    /// spans as they stand, the gaps between them as maximal `Unknown` spans.
    pub open spec fn merged_from(&self, p: int) -> Seq<(Span, RangeKind)>
        decreases self@.len() - p when 0 <= p && self.wf() && covered_before(self, p) && self@.len()
        <= usize::MAX via Self::merged_from_dec
    {
        let n = self@.len() as int;
        if p >= n {
            Seq::<(Span, RangeKind)>::empty()
        } else {
            match self.span_starting(p) {
                Some((sp, kind)) => seq![(sp, kind)] + self.merged_from(sp.end as int),
                None => {
                    let m = self.next_known_start(p);
                    seq![(Span { start: p as usize, end: m as usize }, RangeKind::Unknown)]
                        + self.merged_from(m)
                },
            }
        }
    }

    #[via_fn]
    proof fn merged_from_dec(&self, p: int) {
        if p < self@.len() as int {
            lemma_merged_step(self, p);
        }
    }
}

/// One step of the interleaving walk: what stands at `p`, how far it
/// reaches, and that the walk state is preserved.
pub proof fn lemma_merged_step(c: &Chunk, p: int)
    requires
        c.wf(),
        covered_before(c, p),
        0 <= p < c@.len() <= usize::MAX,
    ensures
        ({
            let n = c@.len() as int;
            match c.span_starting(p) {
                Some((sp, kind)) => {
                    &&& sp.start == p
                    &&& p < sp.end <= n
                    &&& covered_before(c, sp.end as int)
                    &&& (kind == RangeKind::Comment ==> c.comments@.contains(sp))
                    &&& (kind == RangeKind::String ==> c.strings@.contains(sp))
                    &&& (kind == RangeKind::Error ==> c.errors@.contains(sp))
                    &&& kind != RangeKind::Unknown
                },
                None => {
                    let m = c.next_known_start(p);
                    &&& p < m <= n
                    &&& covered_before(c, m)
                    &&& (m < n ==> c.span_starting(m) is Some)
                    &&& forall|i: int| p <= i < m ==> !c.in_known(i)
                },
            }
        }),
{
    let n = c@.len() as int;
    lemma_find_span_starting(c.comments@, p);
    lemma_find_span_starting(c.strings@, p);
    lemma_find_span_starting(c.errors@, p);
    lemma_first_start_from(c.comments@, p, n);
    lemma_first_start_from(c.strings@, p, n);
    lemma_first_start_from(c.errors@, p, n);
    match c.span_starting(p) {
        Some((sp, kind)) => {
            assert(covered_before(c, sp.end as int));
        },
        None => {
            let m = c.next_known_start(p);
            if m < n {
                lemma_find_span_starting(c.comments@, m);
                lemma_find_span_starting(c.strings@, m);
                lemma_find_span_starting(c.errors@, m);
            }
            assert forall|i: int| p <= i < m implies !c.in_known(i) by {
                assert(forall|k: int|
                    0 <= k < c.comments@.len() && p <= (#[trigger] c.comments@[k]).start ==> m
                        <= c.comments@[k].start);
                assert(forall|k: int|
                    0 <= k < c.strings@.len() && p <= (#[trigger] c.strings@[k]).start ==> m
                        <= c.strings@[k].start);
                assert(forall|k: int|
                    0 <= k < c.errors@.len() && p <= (#[trigger] c.errors@[k]).start ==> m
                        <= c.errors@[k].start);
            }
        },
    }
}

/// The interleaving covers `[p, n)` contiguously with non-empty spans whose
/// kinds report the document truthfully, and no two adjacent gaps.
/// The interleaving covers `[p, n)` contiguously with non-empty spans.
pub proof fn lemma_merged_cover(c: &Chunk, p: int)
    requires
        c.wf(),
        covered_before(c, p),
        0 <= p <= c@.len() <= usize::MAX,
    ensures
        ({
            let r = c.merged_from(p);
            let n = c@.len() as int;
            &&& (r.len() == 0 <==> p == n)
            &&& (r.len() > 0 ==> r[0].0.start == p && r[r.len() - 1].0.end == n)
            &&& forall|k: int| 0 <= k < r.len() ==> (#[trigger] r[k]).0.start < r[k].0.end <= n
            &&& forall|k: int| 0 <= k < r.len() - 1 ==> (#[trigger] r[k]).0.end == r[k
                + 1].0.start
        }),
    decreases c@.len() - p,
{
    let r = c.merged_from(p);
    let n = c@.len() as int;
    if p < n {
        lemma_merged_step(c, p);
        match c.span_starting(p) {
            Some((sp, kind)) => {
                lemma_merged_cover(c, sp.end as int);
                let rest = c.merged_from(sp.end as int);
                assert(r == seq![(sp, kind)] + rest);
                assert(r[0] == (sp, kind));
                assert(forall|k: int| 1 <= k < r.len() ==> r[k] == rest[k - 1]);
            },
            None => {
                let m = c.next_known_start(p);
                lemma_merged_cover(c, m);
                let rest = c.merged_from(m);
                let head = (Span { start: p as usize, end: m as usize }, RangeKind::Unknown);
                assert(r == seq![head] + rest);
                assert(r[0] == head);
                assert(forall|k: int| 1 <= k < r.len() ==> r[k] == rest[k - 1]);
            },
        }
    }
}

/// The kind of each interleaving element reports the document truthfully,
/// and no two gaps stand next to each other.
#[verifier::spinoff_prover]
#[verifier::rlimit(100)]
pub proof fn lemma_merged_kinds(c: &Chunk, p: int)
    requires
        c.wf(),
        covered_before(c, p),
        0 <= p <= c@.len() <= usize::MAX,
    ensures
        ({
            let r = c.merged_from(p);
            &&& forall|k: int|
                0 <= k < r.len() && (#[trigger] r[k]).1 != RangeKind::Unknown ==> c.span_starting(
                    r[k].0.start as int,
                ) == Some(r[k])
            &&& forall|k: int|
                0 <= k < r.len() - 1 && (#[trigger] r[k]).1 == RangeKind::Unknown ==> r[k + 1].1
                    != RangeKind::Unknown
        }),
    decreases c@.len() - p,
{
    let r = c.merged_from(p);
    let n = c@.len() as int;
    if p < n {
        lemma_merged_step(c, p);
        match c.span_starting(p) {
            Some((sp, kind)) => {
                lemma_merged_kinds(c, sp.end as int);
                let rest = c.merged_from(sp.end as int);
                assert(r == seq![(sp, kind)] + rest);
                assert(r[0] == (sp, kind));
                assert(forall|k: int| 1 <= k < r.len() ==> r[k] == rest[k - 1]);
            },
            None => {
                let m = c.next_known_start(p);
                lemma_merged_kinds(c, m);
                let rest = c.merged_from(m);
                let head = (Span { start: p as usize, end: m as usize }, RangeKind::Unknown);
                assert(r == seq![head] + rest);
                assert(r[0] == head);
                assert(forall|k: int| 1 <= k < r.len() ==> r[k] == rest[k - 1]);
                if m < n && rest.len() > 0 {
                    // the walk resumes on a classified span after a gap
                    assert(rest[0].1 != RangeKind::Unknown);
                }
            },
        }
    }
}

/// What `span_starting` yields is a member of the list its kind names.
pub proof fn lemma_span_starting_member(c: &Chunk, p: int)
    ensures
        c.span_starting(p) matches Some((sp, kind)) ==> {
            &&& sp.start == p
            &&& kind == RangeKind::Comment ==> c.comments@.contains(sp)
            &&& kind == RangeKind::String ==> c.strings@.contains(sp)
            &&& kind == RangeKind::Error ==> c.errors@.contains(sp)
            &&& kind != RangeKind::Unknown
        },
{
    lemma_find_span_starting(c.comments@, p);
    lemma_find_span_starting(c.strings@, p);
    lemma_find_span_starting(c.errors@, p);
}

/// Every byte of a gap element of the interleaving is classified by no list.
pub proof fn lemma_merged_unknown(c: &Chunk, p: int)
    requires
        c.wf(),
        covered_before(c, p),
        0 <= p <= c@.len() <= usize::MAX,
    ensures
        ({
            let r = c.merged_from(p);
            forall|k: int, i: int|
                0 <= k < r.len() && (#[trigger] r[k]).1 == RangeKind::Unknown && r[k].0.start <= i
                    < r[k].0.end ==> !(#[trigger] c.in_known(i))
        }),
    decreases c@.len() - p,
{
    let r = c.merged_from(p);
    let n = c@.len() as int;
    if p < n {
        lemma_merged_step(c, p);
        match c.span_starting(p) {
            Some((sp, kind)) => {
                lemma_merged_unknown(c, sp.end as int);
                let rest = c.merged_from(sp.end as int);
                assert(r == seq![(sp, kind)] + rest);
                assert forall|k: int, i: int|
                    0 <= k < r.len() && (#[trigger] r[k]).1 == RangeKind::Unknown && r[k].0.start
                        <= i < r[k].0.end implies !(#[trigger] c.in_known(i)) by {
                    assert(r[k] == rest[k - 1]);
                }
            },
            None => {
                let m = c.next_known_start(p);
                lemma_merged_unknown(c, m);
                let rest = c.merged_from(m);
                let head = (Span { start: p as usize, end: m as usize }, RangeKind::Unknown);
                assert(r == seq![head] + rest);
                assert forall|k: int, i: int|
                    0 <= k < r.len() && (#[trigger] r[k]).1 == RangeKind::Unknown && r[k].0.start
                        <= i < r[k].0.end implies !(#[trigger] c.in_known(i)) by {
                    if k > 0 {
                        assert(r[k] == rest[k - 1]);
                    }
                }
            },
        }
    }
}

/// Locate the first span start at or after `p`, executable counterpart of
/// `first_start_from`.
fn first_start_from_exec(l: &Vec<Span>, p: usize, n: usize) -> (m: usize)
    ensures
        m as int == first_start_from(l@, p as int, n as int),
{
    proof {
        assert(l@.skip(0) =~= l@);
    }
    let mut k: usize = 0;
    while k < l.len()
        invariant
            0 <= k <= l@.len(),
            first_start_from(l@, p as int, n as int) == first_start_from(
                l@.skip(k as int),
                p as int,
                n as int,
            ),
        decreases l@.len() - k,
    {
        proof {
            assert(l@.skip(k as int)[0] == l@[k as int]);
            assert(l@.skip(k as int).skip(1) =~= l@.skip(k as int + 1));
        }
        if l[k].start >= p {
            if l[k].start <= n {
                return l[k].start;
            } else {
                return n;
            }
        }
        k = k + 1;
    }
    n
}

/// Locate the span that starts exactly at `p`, executable counterpart of
/// `find_span_starting`.
fn find_span_starting_exec(l: &Vec<Span>, p: usize) -> (r: Option<Span>)
    ensures
        r == find_span_starting(l@, p as int),
{
    proof {
        assert(l@.skip(0) =~= l@);
    }
    let mut k: usize = 0;
    while k < l.len()
        invariant
            0 <= k <= l@.len(),
            find_span_starting(l@, p as int) == find_span_starting(l@.skip(k as int), p as int),
        decreases l@.len() - k,
    {
        proof {
            assert(l@.skip(k as int)[0] == l@[k as int]);
            assert(l@.skip(k as int).skip(1) =~= l@.skip(k as int + 1));
        }
        if l[k].start == p {
            return Some(l[k]);
        }
        k = k + 1;
    }
    None
}

impl Chunk {
    /// The ordered interleaving of the whole document: every classified span
    /// in ascending position, with the gaps as maximal `Unknown` spans.
    pub fn ranges(&self) -> (r: Vec<(Span, RangeKind)>)
        requires
            self.wf(),
        ensures
            r@ == self.merged_from(0),
    {
        let n = self.text.len();
        let mut r: Vec<(Span, RangeKind)> = Vec::new();
        let mut pos: usize = 0;
        while pos < n
            invariant
                0 <= pos <= n,
                n == self@.len(),
                self.wf(),
                covered_before(self, pos as int),
                self.merged_from(0) == r@ + self.merged_from(pos as int),
            decreases n - pos,
        {
            proof {
                lemma_merged_step(self, pos as int);
            }
            let ghost old_r = r@;
            let ghost old_pos = pos as int;
            let item = if let Some(sp) = find_span_starting_exec(&self.comments, pos) {
                (sp, RangeKind::Comment)
            } else if let Some(sp) = find_span_starting_exec(&self.strings, pos) {
                (sp, RangeKind::String)
            } else if let Some(sp) = find_span_starting_exec(&self.errors, pos) {
                (sp, RangeKind::Error)
            } else {
                let m1 = first_start_from_exec(&self.comments, pos, n);
                let m2 = first_start_from_exec(&self.strings, pos, n);
                let m3 = first_start_from_exec(&self.errors, pos, n);
                let m23 = if m2 <= m3 {
                    m2
                } else {
                    m3
                };
                let m = if m1 <= m23 {
                    m1
                } else {
                    m23
                };
                (Span { start: pos, end: m }, RangeKind::Unknown)
            };
            r.push(item);
            pos = item.0.end;
            proof {
                assert(r@ + self.merged_from(pos as int) =~= old_r + self.merged_from(old_pos));
            }
        }
        proof {
            assert(r@ + self.merged_from(pos as int) =~= r@);
        }
        r
    }
}

} // verus!
