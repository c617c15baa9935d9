//! Line view: the tree iterated token by token, grouped by newline
//! whitespace.
//!
//! A line ends at the first whitespace token whose text contains a newline,
//! that token included. Branches never break lines: a newline inside a
//! branch does not begin a new outer line. The view allocates nothing: a
//! line is a second cursor over the same tree.

use vstd::prelude::*;

use crate::bracer::{lemma_next_spec_props, next_spec, Bracer, BracerIter, TreeToken};
use crate::lexer::TokenKind;

verus! {

/// A whitespace token whose text holds a newline byte.
pub open spec fn is_newline_whitespace(tt: TreeToken, s: Seq<u8>) -> bool {
    match tt {
        TreeToken::Token(t) => t.kind == TokenKind::Whitespace && exists|i: int|
            t.span.start <= i < t.span.end && s[i] == 10,
        TreeToken::Branch(..) => false,
    }
}

/// Where the outer cursor stands after one line is consumed: just past the
/// first newline whitespace, or at the end when none remains.
pub open spec fn advance_past_line(tree: &Bracer, it: BracerIter) -> BracerIter
    decreases it.measure() when it.wf(tree) via advance_past_line_dec
{
    let (r, it2) = next_spec(tree, it);
    match r {
        None => it2,
        Some(tt) => if is_newline_whitespace(tt, tree.chunk.chunk@) {
            it2
        } else {
            advance_past_line(tree, it2)
        },
    }
}

#[via_fn]
proof fn advance_past_line_dec(tree: &Bracer, it: BracerIter) {
    lemma_next_spec_props(tree, it);
}

/// Test whether an element ends a line.
fn is_newline_whitespace_exec(tt: &TreeToken, tree: &Bracer) -> (r: bool)
    requires
        ({
            match tt {
                TreeToken::Token(t) => t.span.start <= t.span.end <= tree.chunk.chunk@.len(),
                TreeToken::Branch(..) => true,
            }
        }),
    ensures
        r == is_newline_whitespace(*tt, tree.chunk.chunk@),
{
    match tt {
        TreeToken::Token(t) => {
            match t.kind {
                TokenKind::Whitespace => {
                    let mut i: usize = t.span.start;
                    while i < t.span.end
                        invariant
                            *tt == TreeToken::Token(*t),
                            t.kind == TokenKind::Whitespace,
                            t.span.start <= i <= t.span.end <= tree.chunk.chunk@.len(),
                            forall|j: int| t.span.start <= j < i ==> tree.chunk.chunk@[j] != 10,
                        decreases t.span.end - i,
                    {
                        if tree.chunk.chunk.text.byte_at(i) == 10 {
                            return true;
                        }
                        i = i + 1;
                    }
                    false
                },
                _ => false,
            }
        },
        TreeToken::Branch(..) => false,
    }
}

/// The outer iterator of the line view: hands out one cursor per line.
#[derive(Clone, Copy, Debug, PartialEq, Eq, Structural)]
pub struct LinesIter {
    pub iter: BracerIter,
}

/// The inner iterator of one line: yields elements up to and including the
/// line's terminating newline whitespace.
#[derive(Clone, Copy, Debug, PartialEq, Eq, Structural)]
pub struct LineIter {
    pub iter: BracerIter,
    pub done: bool,
}

impl BracerIter {
    /// Group the remaining elements into lines.
    pub fn lines(self) -> (r: LinesIter)
        ensures
            r.iter == self,
    {
        LinesIter { iter: self }
    }
}

impl LinesIter {
    /// The next line, as a cursor starting at the line's first element, or
    /// `None` when no elements remain. The outer cursor advances past the
    /// line's terminating newline whitespace.
    pub fn next_line(&mut self, tree: &Bracer) -> (r: Option<LineIter>)
        requires
            old(self).iter.wf(tree),
            tree.tokens_wf(),
        ensures
            final(self).iter.wf(tree),
            final(self).iter == advance_past_line(tree, old(self).iter),
            r is Some <==> next_spec(tree, old(self).iter).0 is Some,
            r matches Some(line) ==> {
                &&& line.iter == old(self).iter
                &&& !line.done
                &&& final(self).iter.measure() < old(self).iter.measure()
            },
    {
        let line_start = self.iter;
        let first = match self.iter.next(tree) {
            None => {
                return None;
            },
            Some(tt) => tt,
        };
        if is_newline_whitespace_exec(&first, tree) {
            return Some(LineIter { iter: line_start, done: false });
        }
        loop
            invariant_except_break
                advance_past_line(tree, line_start) == advance_past_line(tree, self.iter),
            invariant
                self.iter.wf(tree),
                tree.tokens_wf(),
                self.iter.measure() < line_start.measure(),
            ensures
                self.iter.wf(tree),
                self.iter.measure() < line_start.measure(),
                self.iter == advance_past_line(tree, line_start),
            decreases self.iter.measure(),
        {
            let ghost before = self.iter;
            match self.iter.next(tree) {
                None => {
                    proof {
                        assert(advance_past_line(tree, before) == self.iter);
                    }
                    break ;
                },
                Some(tt) => {
                    if is_newline_whitespace_exec(&tt, tree) {
                        proof {
                            assert(advance_past_line(tree, before) == self.iter);
                        }
                        break ;
                    }
                },
            }
        }
        Some(LineIter { iter: line_start, done: false })
    }
}

impl LineIter {
    /// The next element of the line; the terminating newline whitespace is
    /// yielded, and the line is exhausted after it.
    pub fn next(&mut self, tree: &Bracer) -> (r: Option<TreeToken>)
        requires
            old(self).iter.wf(tree),
            tree.tokens_wf(),
        ensures
            final(self).iter.wf(tree),
            r is Some ==> final(self).iter.measure() < old(self).iter.measure(),
            old(self).done ==> r is None && *final(self) == *old(self),
            !old(self).done ==> {
                &&& r == next_spec(tree, old(self).iter).0
                &&& final(self).iter == next_spec(tree, old(self).iter).1
                &&& final(self).done == match r {
                    None => true,
                    Some(tt) => is_newline_whitespace(tt, tree.chunk.chunk@),
                }
            },
    {
        if self.done {
            return None;
        }
        match self.iter.next(tree) {
            None => {
                self.done = true;
                None
            },
            Some(tt) => {
                if is_newline_whitespace_exec(&tt, tree) {
                    self.done = true;
                }
                Some(tt)
            },
        }
    }
}

} // verus!
