//! Byte text and half-open byte spans, the ground types of the pipeline.

use vstd::prelude::*;

verus! {

/// A half-open byte range `[start, end)`.
#[derive(Clone, Copy, Debug, PartialEq, Eq, Structural)]
pub struct Span {
    pub start: usize,
    pub end: usize,
}

impl Span {
    /// The span is ordered.
    pub open spec fn wf(self) -> bool {
        self.start <= self.end
    }

    /// The span is ordered and lies inside a text of `n` bytes.
    pub open spec fn within(self, n: int) -> bool {
        self.start <= self.end <= n
    }

    pub open spec fn spec_len(self) -> int {
        self.end - self.start
    }

    /// Two spans do not share a byte.
    pub open spec fn disjoint(self, other: Span) -> bool {
        self.end <= other.start || other.end <= self.start
    }

    pub fn new(start: usize, end: usize) -> (s: Span)
        requires
            start <= end,
        ensures
            s == (Span { start, end }),
    {
        Span { start, end }
    }

    pub fn len(&self) -> (n: usize)
        requires
            self.wf(),
        ensures
            n == self.spec_len(),
    {
        self.end - self.start
    }

    pub fn is_empty(&self) -> (r: bool)
        requires
            self.wf(),
        ensures
            r == (self.spec_len() == 0),
    {
        self.start == self.end
    }

    /// Shift the span left by `offset`, re-basing it to a text that starts
    /// at byte `offset` of the present one.
    pub fn rebase(&self, offset: usize) -> (s: Span)
        requires
            offset <= self.start,
            self.wf(),
        ensures
            s.start == self.start - offset,
            s.end == self.end - offset,
    {
        Span { start: self.start - offset, end: self.end - offset }
    }
}

/// An owner of immutable text, stored as bytes.
pub struct Text {
    pub bytes: Vec<u8>,
}

impl View for Text {
    type V = Seq<u8>;

    open spec fn view(&self) -> Seq<u8> {
        self.bytes@
    }
}

impl Text {
    pub fn new(bytes: Vec<u8>) -> (t: Text)
        ensures
            t@ == bytes@,
    {
        Text { bytes }
    }

    pub fn len(&self) -> (n: usize)
        ensures
            n == self@.len(),
    {
        self.bytes.len()
    }

    pub fn as_bytes(&self) -> (s: &[u8])
        ensures
            s@ == self@,
    {
        self.bytes.as_slice()
    }

    pub fn byte_at(&self, i: usize) -> (b: u8)
        requires
            i < self@.len(),
        ensures
            b == self@[i as int],
    {
        self.bytes[i]
    }

    /// A sub-text view covering the whole text.
    pub fn as_sub(&self) -> (s: SubText)
        ensures
            s.span.start == 0,
            s.span.end == self@.len(),
    {
        SubText { span: Span { start: 0, end: self.bytes.len() } }
    }

    /// A sub-text view of the given span, when it lies inside the text.
    pub fn sub(&self, span: Span) -> (s: Option<SubText>)
        ensures
            s is Some <==> span.within(self@.len() as int),
            s matches Some(st) ==> st.span == span,
    {
        if span.start <= span.end && span.end <= self.bytes.len() {
            Some(SubText { span })
        } else {
            None
        }
    }

    /// Copy the bytes of a span out of the text.
    pub fn slice_to_vec(&self, span: Span) -> (v: Vec<u8>)
        requires
            span.within(self@.len() as int),
        ensures
            v@ == self@.subrange(span.start as int, span.end as int),
    {
        let mut v: Vec<u8> = Vec::new();
        let mut i: usize = span.start;
        while i < span.end
            invariant
                span.start <= i <= span.end,
                span.within(self@.len() as int),
                v@ == self@.subrange(span.start as int, i as int),
            decreases span.end - i,
        {
            v.push(self.bytes[i]);
            i = i + 1;
            proof {
                assert(v@ =~= self@.subrange(span.start as int, i as int));
            }
        }
        v
    }
}

/// A view into an owning `Text`: just the span, kept as its own type so
/// that signatures distinguish a checked sub-range from a bare pair.
#[derive(Clone, Copy, Debug, PartialEq, Eq, Structural)]
pub struct SubText {
    pub span: Span,
}

impl SubText {
    /// Narrow this view: the new range is checked against the whole owner
    /// text, not against this view, and is kept as given - a view of the
    /// same owner, not an offset within this one.
    pub fn sub(&self, owner: &Text, range: Span) -> (s: Option<SubText>)
        ensures
            s is Some <==> range.within(owner@.len() as int),
            s matches Some(st) ==> st.span == range,
    {
        if range.start <= range.end && range.end <= owner.len() {
            Some(SubText { span: range })
        } else {
            None
        }
    }
}

} // verus!
