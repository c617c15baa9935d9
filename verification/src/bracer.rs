//! Bracer: reorganises a flat token stream into a recoverable bracket tree.
//!
//! Every bracket opener becomes a branch, matched by a real closer, by a
//! synthesised one at a mismatch, or by one at the end of input. Stray
//! closers are removed. The tree is four flat vectors written in pre-order:
//! a branch entry carries the number of descendant entries that follow it
//! in each vector, so subtrees are slices recovered by cursor arithmetic.

use vstd::prelude::*;

use crate::lexer::{ChunkLex, Sigil, Token, TokenKind};
use crate::text::Span;

verus! {

/// A node of the bracket tree: the token range from the opener through the
/// closer (when one exists), the pair of sigils, and the number of
/// descendant entries that follow this branch in each flat vector.
#[derive(Clone, Copy, Debug, PartialEq, Eq, Structural)]
pub struct Branch {
    pub real_token_range: Span,
    pub branches: usize,
    pub inserted_closes: usize,
    pub removed_closes: usize,
    pub errors: usize,
    pub open_sigil: Sigil,
    pub close_sigil: Sigil,
}

/// The bracket tree of a tokenized chunk: four pre-order flat vectors.
pub struct Bracer {
    pub chunk: ChunkLex,
    pub branches: Vec<Branch>,
    pub inserted_closes: Vec<(usize, Sigil)>,
    pub removed_closes: Vec<(usize, Sigil)>,
    pub errors: Vec<(Span, Sigil)>,
}

/// A frame of the matching stack: the opener's token index and sigil, and
/// the lengths the four output vectors had when the opener was pushed. The
/// entries past those offsets belong to this opener's subtree.
#[derive(Clone, Copy, Debug, PartialEq, Eq, Structural)]
pub struct Frame {
    pub open_index: usize,
    pub open_sigil: Sigil,
    pub branches_off: usize,
    pub inserted_off: usize,
    pub removed_off: usize,
    pub errors_off: usize,
}

/// The whole matching state: the open stack and the four output vectors.
pub struct BrState {
    pub stack: Seq<Frame>,
    pub branches: Seq<Branch>,
    pub inserted: Seq<(usize, Sigil)>,
    pub removed: Seq<(usize, Sigil)>,
    pub errors: Seq<(Span, Sigil)>,
}

/// The opener that a closing sigil matches.
pub open spec fn opener_of(g: Sigil) -> Sigil {
    match g {
        Sigil::ParenClose => Sigil::ParenOpen,
        Sigil::BraceClose => Sigil::BraceOpen,
        Sigil::BracketClose => Sigil::BracketOpen,
        Sigil::AngleClose => Sigil::AngleOpen,
        _ => g,
    }
}

/// Some frame of the stack holds this opener.
pub open spec fn stack_has_open(stack: Seq<Frame>, open_s: Sigil) -> bool {
    exists|k: int| 0 <= k < stack.len() && (#[trigger] stack[k]).open_sigil == open_s
}

/// The empty matching state.
pub open spec fn st_init() -> BrState {
    BrState {
        stack: Seq::<Frame>::empty(),
        branches: Seq::<Branch>::empty(),
        inserted: Seq::<(usize, Sigil)>::empty(),
        removed: Seq::<(usize, Sigil)>::empty(),
        errors: Seq::<(Span, Sigil)>::empty(),
    }
}

/// Every stack frame holds an opening sigil and offsets that lie within
/// the output vectors.
pub open spec fn st_wf(st: BrState) -> bool {
    forall|k: int|
        0 <= k < st.stack.len() ==> {
            let f = #[trigger] st.stack[k];
            &&& f.open_sigil.is_open_spec()
            &&& f.branches_off <= st.branches.len()
            &&& f.inserted_off <= st.inserted.len()
            &&& f.removed_off <= st.removed.len()
            &&& f.errors_off <= st.errors.len()
        }
}

/// Close the innermost frames at closing token `index`: each popped frame
/// that does not match gets a synthesised close and an error and becomes a
/// branch; the matching frame becomes a branch through the real closer.
pub open spec fn close_pop(st: BrState, index: int, open_s: Sigil, close_s: Sigil) -> BrState
    decreases st.stack.len() when stack_has_open(st.stack, open_s) via close_pop_dec
{
    let f = st.stack.last();
    let rest = st.stack.drop_last();
    if f.open_sigil == open_s {
        let branch = Branch {
            real_token_range: Span { start: f.open_index, end: (index + 1) as usize },
            branches: (st.branches.len() - f.branches_off) as usize,
            inserted_closes: (st.inserted.len() - f.inserted_off) as usize,
            removed_closes: (st.removed.len() - f.removed_off) as usize,
            errors: (st.errors.len() - f.errors_off) as usize,
            open_sigil: open_s,
            close_sigil: close_s,
        };
        BrState {
            stack: rest,
            branches: st.branches.insert(f.branches_off as int, branch),
            inserted: st.inserted,
            removed: st.removed,
            errors: st.errors,
        }
    } else {
        let g = f.open_sigil;
        let inserted2 = st.inserted.push((index as usize, g.close_of()));
        let errors2 = st.errors.push((Span { start: f.open_index, end: index as usize }, g));
        let branch = Branch {
            real_token_range: Span { start: f.open_index, end: index as usize },
            branches: (st.branches.len() - f.branches_off) as usize,
            inserted_closes: (inserted2.len() - f.inserted_off) as usize,
            removed_closes: (st.removed.len() - f.removed_off) as usize,
            errors: (errors2.len() - f.errors_off) as usize,
            open_sigil: g,
            close_sigil: g.close_of(),
        };
        let st2 = BrState {
            stack: rest,
            branches: st.branches.insert(f.branches_off as int, branch),
            inserted: inserted2,
            removed: st.removed,
            errors: errors2,
        };
        close_pop(st2, index, open_s, close_s)
    }
}

#[via_fn]
proof fn close_pop_dec(st: BrState, index: int, open_s: Sigil, close_s: Sigil) {
    let f = st.stack.last();
    let rest = st.stack.drop_last();
    if f.open_sigil != open_s {
        let k = choose|k: int|
            0 <= k < st.stack.len() && (#[trigger] st.stack[k]).open_sigil == open_s;
        assert(k < rest.len() && rest[k] == st.stack[k]);
    }
}

/// One token of the matching walk.
pub open spec fn br_step(st: BrState, index: int, kind: TokenKind) -> BrState {
    match kind {
        TokenKind::Sigil(g) => {
            if g.is_open_spec() {
                BrState {
                    stack: st.stack.push(
                        Frame {
                            open_index: index as usize,
                            open_sigil: g,
                            branches_off: st.branches.len() as usize,
                            inserted_off: st.inserted.len() as usize,
                            removed_off: st.removed.len() as usize,
                            errors_off: st.errors.len() as usize,
                        },
                    ),
                    branches: st.branches,
                    inserted: st.inserted,
                    removed: st.removed,
                    errors: st.errors,
                }
            } else if g.is_close_spec() {
                if stack_has_open(st.stack, opener_of(g)) {
                    close_pop(st, index, opener_of(g), g)
                } else {
                    BrState {
                        stack: st.stack,
                        branches: st.branches,
                        inserted: st.inserted,
                        removed: st.removed.push((index as usize, g)),
                        errors: st.errors.push(
                            (Span { start: index as usize, end: (index + 1) as usize }, g),
                        ),
                    }
                }
            } else {
                st
            }
        },
        _ => st,
    }
}

/// The matching walk over the token kinds from index `i` on.
pub open spec fn br_fold(kinds: Seq<TokenKind>, i: int, st: BrState) -> BrState
    decreases kinds.len() - i when 0 <= i <= kinds.len()
{
    if i >= kinds.len() {
        st
    } else {
        br_fold(kinds, i + 1, br_step(st, i, kinds[i]))
    }
}

/// End of input: every surviving opener becomes a branch with a synthesised
/// close at token count `num`, and an error over the open range.
pub open spec fn br_unwind(st: BrState, num: int) -> BrState
    decreases st.stack.len(),
{
    if st.stack.len() == 0 {
        st
    } else {
        let f = st.stack.last();
        let rest = st.stack.drop_last();
        let g = f.open_sigil;
        let inserted2 = st.inserted.push((num as usize, g.close_of()));
        let branch = Branch {
            real_token_range: Span { start: f.open_index, end: num as usize },
            branches: (st.branches.len() - f.branches_off) as usize,
            inserted_closes: (inserted2.len() - f.inserted_off) as usize,
            removed_closes: (st.removed.len() - f.removed_off) as usize,
            errors: (st.errors.len() - f.errors_off) as usize,
            open_sigil: g,
            close_sigil: g.close_of(),
        };
        let st2 = BrState {
            stack: rest,
            branches: st.branches.insert(f.branches_off as int, branch),
            inserted: inserted2,
            removed: st.removed,
            errors: st.errors.insert(
                f.errors_off as int,
                (Span { start: f.open_index, end: num as usize }, g),
            ),
        };
        br_unwind(st2, num)
    }
}

/// The kinds of a token list.
pub open spec fn kinds_of(tokens: Seq<Token>) -> Seq<TokenKind> {
    tokens.map_values(|t: Token| t.kind)
}

/// The complete bracket tree of a token list.
pub open spec fn bracer_spec(kinds: Seq<TokenKind>) -> BrState {
    br_unwind(br_fold(kinds, 0, st_init()), kinds.len() as int)
}

/// Every branch pairs an opening sigil with its matching closer.
pub open spec fn branches_paired(bs: Seq<Branch>) -> bool {
    forall|k: int|
        0 <= k < bs.len() ==> (#[trigger] bs[k]).open_sigil.is_open_spec() && bs[k].close_sigil
            == bs[k].open_sigil.close_of()
}

/// Walk the top level of a branch forest slice: from entry `i`, hop past
/// each branch and the descendants its count claims, stopping at `end`.
pub open spec fn walk_to(bs: Seq<Branch>, i: int, end: int) -> int
    decreases end - i when 0 <= i
{
    if i >= end {
        i
    } else {
        let next = i + 1 + bs[i].branches;
        if next >= end {
            next
        } else {
            walk_to(bs, next, end)
        }
    }
}

/// Sum of the inserted-close counts of the top-level branches of a slice.
pub open spec fn ic_sum_to(bs: Seq<Branch>, i: int, end: int) -> int
    decreases end - i when 0 <= i
{
    if i >= end {
        0
    } else {
        let next = i + 1 + bs[i].branches;
        if next >= end {
            bs[i].inserted_closes as int
        } else {
            bs[i].inserted_closes + ic_sum_to(bs, next, end)
        }
    }
}

/// Sum of the removed-close counts of the top-level branches of a slice.
pub open spec fn rc_sum_to(bs: Seq<Branch>, i: int, end: int) -> int
    decreases end - i when 0 <= i
{
    if i >= end {
        0
    } else {
        let next = i + 1 + bs[i].branches;
        if next >= end {
            bs[i].removed_closes as int
        } else {
            bs[i].removed_closes + rc_sum_to(bs, next, end)
        }
    }
}

/// Sum of the error counts of the top-level branches of a slice.
pub open spec fn err_sum_to(bs: Seq<Branch>, i: int, end: int) -> int
    decreases end - i when 0 <= i
{
    if i >= end {
        0
    } else {
        let next = i + 1 + bs[i].branches;
        if next >= end {
            bs[i].errors as int
        } else {
            bs[i].errors + err_sum_to(bs, next, end)
        }
    }
}

/// The lower bound of stack segment `k` in the branches vector.
pub open spec fn b_lo(st: BrState, k: int) -> int {
    if k == 0 {
        0
    } else {
        st.stack[k - 1].branches_off as int
    }
}

/// The upper bound of stack segment `k` in the branches vector.
pub open spec fn b_hi(st: BrState, k: int) -> int {
    if k == st.stack.len() {
        st.branches.len() as int
    } else {
        st.stack[k].branches_off as int
    }
}

/// The lower bound of stack segment `k` in the inserted-closes vector.
pub open spec fn ic_lo(st: BrState, k: int) -> int {
    if k == 0 {
        0
    } else {
        st.stack[k - 1].inserted_off as int
    }
}

/// The upper bound of stack segment `k` in the inserted-closes vector.
pub open spec fn ic_hi(st: BrState, k: int) -> int {
    if k == st.stack.len() {
        st.inserted.len() as int
    } else {
        st.stack[k].inserted_off as int
    }
}

/// The lower bound of stack segment `k` in the removed-closes vector.
pub open spec fn rc_lo(st: BrState, k: int) -> int {
    if k == 0 {
        0
    } else {
        st.stack[k - 1].removed_off as int
    }
}

/// The upper bound of stack segment `k` in the removed-closes vector.
pub open spec fn rc_hi(st: BrState, k: int) -> int {
    if k == st.stack.len() {
        st.removed.len() as int
    } else {
        st.stack[k].removed_off as int
    }
}

/// The lower bound of stack segment `k` in the errors vector.
pub open spec fn e_lo(st: BrState, k: int) -> int {
    if k == 0 {
        0
    } else {
        st.stack[k - 1].errors_off as int
    }
}

/// The upper bound of stack segment `k` in the errors vector.
pub open spec fn e_hi(st: BrState, k: int) -> int {
    if k == st.stack.len() {
        st.errors.len() as int
    } else {
        st.stack[k].errors_off as int
    }
}

/// The structural invariant of the matching state: the vectors fall into
/// one segment per open frame plus the root segment; within each segment
/// the top-level walk lands exactly on the segment end, and the top-level
/// inserted-close counts sum exactly to the segment's share of that vector.
pub open spec fn counts_inv(st: BrState) -> bool {
    &&& st_wf(st)
    &&& branches_paired(st.branches)
    &&& forall|k1: int, k2: int|
        0 <= k1 < k2 < st.stack.len() ==> (#[trigger] st.stack[k1]).branches_off <= (
        #[trigger] st.stack[k2]).branches_off && st.stack[k1].inserted_off
            <= st.stack[k2].inserted_off && st.stack[k1].removed_off <= st.stack[k2].removed_off
            && st.stack[k1].errors_off <= st.stack[k2].errors_off
    &&& forall|k: int|
        0 <= k <= st.stack.len() ==> #[trigger] walk_to(st.branches, b_lo(st, k), b_hi(st, k))
            == b_hi(st, k)
    &&& forall|k: int|
        0 <= k <= st.stack.len() ==> #[trigger] ic_sum_to(st.branches, b_lo(st, k), b_hi(st, k))
            == ic_hi(st, k) - ic_lo(st, k)
    &&& forall|k: int|
        0 <= k <= st.stack.len() ==> #[trigger] rc_sum_to(st.branches, b_lo(st, k), b_hi(st, k))
            <= rc_hi(st, k) - rc_lo(st, k)
    &&& forall|k: int|
        0 <= k <= st.stack.len() ==> #[trigger] err_sum_to(st.branches, b_lo(st, k), b_hi(st, k))
            <= e_hi(st, k) - e_lo(st, k)
}

/// The vectors leave room for the walk still to come: pops turn frames
/// into entries one for one, so these sums never grow past the machine
/// bound while tokens remain.
pub open spec fn cap_ok(st: BrState, slack: int) -> bool {
    &&& st.branches.len() + st.stack.len() + slack <= usize::MAX
    &&& st.inserted.len() + st.stack.len() + slack <= usize::MAX
    &&& st.removed.len() + st.stack.len() + slack <= usize::MAX
    &&& st.errors.len() + st.stack.len() + slack <= usize::MAX
}

/// A walk over unchanged entries is unchanged.
proof fn lemma_walk_congruent(bs1: Seq<Branch>, bs2: Seq<Branch>, i: int, end: int)
    requires
        0 <= i,
        end <= bs1.len(),
        end <= bs2.len(),
        forall|j: int| i <= j < end ==> bs1[j] == bs2[j],
    ensures
        walk_to(bs1, i, end) == walk_to(bs2, i, end),
        ic_sum_to(bs1, i, end) == ic_sum_to(bs2, i, end),
        rc_sum_to(bs1, i, end) == rc_sum_to(bs2, i, end),
        err_sum_to(bs1, i, end) == err_sum_to(bs2, i, end),
    decreases end - i,
{
    if i < end {
        let next = i + 1 + bs1[i].branches;
        if next < end {
            lemma_walk_congruent(bs1, bs2, next, end);
        }
    }
}

/// Two adjacent partitioned stretches walk as one.
proof fn lemma_walk_append(bs: Seq<Branch>, lo: int, mid: int, hi: int)
    requires
        0 <= lo <= mid <= hi,
        walk_to(bs, lo, mid) == mid,
        walk_to(bs, mid, hi) == hi,
    ensures
        walk_to(bs, lo, hi) == hi,
        ic_sum_to(bs, lo, hi) == ic_sum_to(bs, lo, mid) + ic_sum_to(bs, mid, hi),
        rc_sum_to(bs, lo, hi) == rc_sum_to(bs, lo, mid) + rc_sum_to(bs, mid, hi),
        err_sum_to(bs, lo, hi) == err_sum_to(bs, lo, mid) + err_sum_to(bs, mid, hi),
    decreases mid - lo,
{
    if lo < mid {
        let next = lo + 1 + bs[lo].branches;
        assert(next <= mid);
        if next == mid {
            if mid < hi {
            }
        } else {
            lemma_walk_append(bs, next, mid, hi);
        }
    }
}

/// Closing the top frame into its parent preserves the invariant: the top
/// segment and the new branch entry merge into the parent's segment.
proof fn lemma_merge_top(
    st: BrState,
    branch: Branch,
    inserted2: Seq<(usize, Sigil)>,
    removed2: Seq<(usize, Sigil)>,
    errors2: Seq<(Span, Sigil)>,
)
    requires
        counts_inv(st),
        st.stack.len() > 0,
        st.branches.len() < usize::MAX,
        st.inserted.len() <= inserted2.len() <= usize::MAX,
        st.removed.len() <= removed2.len(),
        st.errors.len() <= errors2.len(),
        branch.branches as int == st.branches.len() - st.stack.last().branches_off,
        branch.inserted_closes as int == inserted2.len() - st.stack.last().inserted_off,
        branch.removed_closes as int <= removed2.len() - st.stack.last().removed_off,
        branch.errors as int <= errors2.len() - st.stack.last().errors_off,
        branch.open_sigil.is_open_spec(),
        branch.close_sigil == branch.open_sigil.close_of(),
    ensures
        counts_inv(
            BrState {
                stack: st.stack.drop_last(),
                branches: st.branches.insert(st.stack.last().branches_off as int, branch),
                inserted: inserted2,
                removed: removed2,
                errors: errors2,
            },
        ),
{
    let f = st.stack.last();
    let o = f.branches_off as int;
    let n = st.branches.len() as int;
    let bs2 = st.branches.insert(o, branch);
    let st2 = BrState {
        stack: st.stack.drop_last(),
        branches: bs2,
        inserted: inserted2,
        removed: removed2,
        errors: errors2,
    };
    let kl = st.stack.len() as int;
    assert(forall|j: int| 0 <= j < st2.stack.len() ==> st2.stack[j] == st.stack[j]);
    assert(forall|j: int| 0 <= j < o ==> bs2[j] == st.branches[j]);
    assert(bs2[o] == branch);
    assert(forall|j: int| o < j < bs2.len() ==> bs2[j] == st.branches[j - 1]);
    // pairing is kept: old entries shift, the new entry is paired
    assert(branches_paired(bs2)) by {
        assert forall|j: int| 0 <= j < bs2.len() implies (#[trigger] bs2[j]).open_sigil.is_open_spec()
            && bs2[j].close_sigil == bs2[j].open_sigil.close_of() by {
            if j < o {
                assert(bs2[j] == st.branches[j]);
            } else if j > o {
                assert(bs2[j] == st.branches[j - 1]);
            }
        }
    }
    // segments below the parent see only unchanged entries
    assert forall|k: int|
        #![trigger walk_to(st2.branches, b_lo(st2, k), b_hi(st2, k))]
        #![trigger ic_sum_to(st2.branches, b_lo(st2, k), b_hi(st2, k))]
        #![trigger rc_sum_to(st2.branches, b_lo(st2, k), b_hi(st2, k))]
        #![trigger err_sum_to(st2.branches, b_lo(st2, k), b_hi(st2, k))]
        0 <= k <= st2.stack.len() implies walk_to(st2.branches, b_lo(st2, k), b_hi(st2, k))
        == b_hi(st2, k) && ic_sum_to(st2.branches, b_lo(st2, k), b_hi(st2, k)) == ic_hi(st2, k)
        - ic_lo(st2, k) && rc_sum_to(st2.branches, b_lo(st2, k), b_hi(st2, k)) <= rc_hi(st2, k)
        - rc_lo(st2, k) && err_sum_to(st2.branches, b_lo(st2, k), b_hi(st2, k)) <= e_hi(st2, k)
        - e_lo(st2, k) by {
        if k < st2.stack.len() {
            // an untouched segment: its bounds are below the insertion point
            assert(walk_to(st.branches, b_lo(st, k), b_hi(st, k)) == b_hi(st, k));
            assert(ic_sum_to(st.branches, b_lo(st, k), b_hi(st, k)) == ic_hi(st, k) - ic_lo(
                st,
                k,
            ));
            assert(rc_sum_to(st.branches, b_lo(st, k), b_hi(st, k)) <= rc_hi(st, k) - rc_lo(
                st,
                k,
            ));
            assert(err_sum_to(st.branches, b_lo(st, k), b_hi(st, k)) <= e_hi(st, k) - e_lo(st, k));
            assert(b_lo(st2, k) == b_lo(st, k));
            assert(b_hi(st2, k) == b_hi(st, k));
            assert(ic_lo(st2, k) == ic_lo(st, k));
            assert(ic_hi(st2, k) == ic_hi(st, k));
            assert(rc_lo(st2, k) == rc_lo(st, k));
            assert(rc_hi(st2, k) == rc_hi(st, k));
            assert(e_lo(st2, k) == e_lo(st, k));
            assert(e_hi(st2, k) == e_hi(st, k));
            assert(rc_hi(st, k) - rc_lo(st, k) <= rc_hi(st2, k) - rc_lo(st2, k));
            assert(b_hi(st, k) <= o);
            lemma_walk_congruent(st2.branches, st.branches, b_lo(st, k), b_hi(st, k));
        } else {
            // the parent's segment gains the branch and the old top segment
            let p_lo = b_lo(st, kl - 1);
            let p_ic_lo = ic_lo(st, kl - 1);
            let p_rc_lo = rc_lo(st, kl - 1);
            let p_e_lo = e_lo(st, kl - 1);
            assert(walk_to(st.branches, b_lo(st, kl - 1), b_hi(st, kl - 1)) == b_hi(st, kl - 1));
            assert(ic_sum_to(st.branches, b_lo(st, kl - 1), b_hi(st, kl - 1)) == ic_hi(st, kl - 1)
                - ic_lo(st, kl - 1));
            assert(rc_sum_to(st.branches, b_lo(st, kl - 1), b_hi(st, kl - 1)) <= rc_hi(st, kl - 1)
                - rc_lo(st, kl - 1));
            assert(err_sum_to(st.branches, b_lo(st, kl - 1), b_hi(st, kl - 1)) <= e_hi(st, kl - 1)
                - e_lo(st, kl - 1));
            assert(b_hi(st, kl - 1) == o);
            assert(ic_hi(st, kl - 1) == f.inserted_off);
            assert(rc_hi(st, kl - 1) == f.removed_off);
            assert(e_hi(st, kl - 1) == f.errors_off);
            assert(b_lo(st2, k) == p_lo);
            assert(b_hi(st2, k) == n + 1);
            assert(ic_lo(st2, k) == p_ic_lo);
            assert(ic_hi(st2, k) == inserted2.len() as int);
            assert(rc_lo(st2, k) == p_rc_lo);
            assert(rc_hi(st2, k) == removed2.len() as int);
            assert(e_lo(st2, k) == p_e_lo);
            assert(e_hi(st2, k) == errors2.len() as int);
            assert(walk_to(st.branches, p_lo, o) == o);
            assert(ic_sum_to(st.branches, p_lo, o) == f.inserted_off - p_ic_lo);
            lemma_walk_congruent(st2.branches, st.branches, p_lo, o);
            assert(walk_to(st2.branches, o, n + 1) == n + 1);
            assert(ic_sum_to(st2.branches, o, n + 1) == branch.inserted_closes as int);
            assert(rc_sum_to(st2.branches, o, n + 1) == branch.removed_closes as int);
            assert(err_sum_to(st2.branches, o, n + 1) == branch.errors as int);
            lemma_walk_append(st2.branches, p_lo, o, n + 1);
        }
    }
    // the remaining frames keep their bounds and their order
    assert(st_wf(st2)) by {
        assert forall|j: int| 0 <= j < st2.stack.len() implies {
            let fr = #[trigger] st2.stack[j];
            &&& fr.open_sigil.is_open_spec()
            &&& fr.branches_off <= st2.branches.len()
            &&& fr.inserted_off <= st2.inserted.len()
            &&& fr.removed_off <= st2.removed.len()
            &&& fr.errors_off <= st2.errors.len()
        } by {
            assert(st2.stack[j] == st.stack[j]);
        }
    }
    assert forall|k1: int, k2: int| 0 <= k1 < k2 < st2.stack.len() implies (
    #[trigger] st2.stack[k1]).branches_off <= (#[trigger] st2.stack[k2]).branches_off
        && st2.stack[k1].inserted_off <= st2.stack[k2].inserted_off by {
        assert(st2.stack[k1] == st.stack[k1]);
        assert(st2.stack[k2] == st.stack[k2]);
    }
    assert(counts_inv(st2));
}

/// The top frame's offsets lie within the vectors and its sigil opens.
proof fn lemma_frame_bounds(st: BrState)
    requires
        st_wf(st),
        st.stack.len() > 0,
    ensures
        ({
            let f = st.stack.last();
            &&& f.open_sigil.is_open_spec()
            &&& f.branches_off <= st.branches.len()
            &&& f.inserted_off <= st.inserted.len()
            &&& f.removed_off <= st.removed.len()
            &&& f.errors_off <= st.errors.len()
        }),
{
    assert(st.stack[st.stack.len() - 1] == st.stack.last());
}

/// One step of the walk preserves the structural invariant.
proof fn lemma_step_inv(st: BrState, index: int, kind: TokenKind, slack: int)
    requires
        counts_inv(st),
        cap_ok(st, slack),
        slack >= 1,
        0 <= index < usize::MAX,
    ensures
        counts_inv(br_step(st, index, kind)),
        cap_ok(br_step(st, index, kind), slack - 1),
{
    match kind {
        TokenKind::Sigil(g) => {
            if g.is_open_spec() {
                let st2 = br_step(st, index, kind);
                assert(forall|j: int| 0 <= j < st.stack.len() ==> st2.stack[j] == st.stack[j]);
                assert(st2.stack.last().branches_off == st.branches.len());
                assert forall|k: int|
                    #![trigger walk_to(st2.branches, b_lo(st2, k), b_hi(st2, k))]
                    #![trigger ic_sum_to(st2.branches, b_lo(st2, k), b_hi(st2, k))]
                    #![trigger rc_sum_to(st2.branches, b_lo(st2, k), b_hi(st2, k))]
                    #![trigger err_sum_to(st2.branches, b_lo(st2, k), b_hi(st2, k))]
                    0 <= k <= st2.stack.len() implies walk_to(st2.branches, b_lo(st2, k), b_hi(st2, k))
                    == b_hi(st2, k) && ic_sum_to(st2.branches, b_lo(st2, k), b_hi(st2, k)) == ic_hi(
                    st2,
                    k,
                ) - ic_lo(st2, k) && rc_sum_to(st2.branches, b_lo(st2, k), b_hi(st2, k)) <= rc_hi(
                    st2,
                    k,
                ) - rc_lo(st2, k) && err_sum_to(st2.branches, b_lo(st2, k), b_hi(st2, k)) <= e_hi(
                    st2,
                    k,
                ) - e_lo(st2, k) by {
                    if k < st2.stack.len() {
                        assert(walk_to(st.branches, b_lo(st, k), b_hi(st, k)) == b_hi(st, k));
                        assert(ic_sum_to(st.branches, b_lo(st, k), b_hi(st, k)) == ic_hi(st, k)
                            - ic_lo(st, k));
                        assert(rc_sum_to(st.branches, b_lo(st, k), b_hi(st, k)) <= rc_hi(st, k)
                            - rc_lo(st, k));
                        assert(err_sum_to(st.branches, b_lo(st, k), b_hi(st, k)) <= e_hi(st, k)
                            - e_lo(st, k));
                        assert(b_lo(st2, k) == b_lo(st, k));
                        assert(b_hi(st2, k) == b_hi(st, k));
                        assert(ic_lo(st2, k) == ic_lo(st, k));
                        assert(ic_hi(st2, k) == ic_hi(st, k));
                        assert(rc_lo(st2, k) == rc_lo(st, k));
                        assert(rc_hi(st2, k) == rc_hi(st, k));
                        assert(e_lo(st2, k) == e_lo(st, k));
                        assert(e_hi(st2, k) == e_hi(st, k));
                    } else {
                        // the fresh frame owns an empty segment at the end
                        assert(b_lo(st2, k) == st.branches.len());
                        assert(b_hi(st2, k) == st.branches.len());
                        assert(ic_lo(st2, k) == st.inserted.len());
                        assert(ic_hi(st2, k) == st.inserted.len());
                        assert(rc_lo(st2, k) == st.removed.len());
                        assert(rc_hi(st2, k) == st.removed.len());
                        assert(e_lo(st2, k) == st.errors.len());
                        assert(e_hi(st2, k) == st.errors.len());
                    }
                }
                assert forall|k1: int, k2: int| 0 <= k1 < k2 < st2.stack.len() implies (
                #[trigger] st2.stack[k1]).branches_off <= (#[trigger] st2.stack[k2]).branches_off
                    && st2.stack[k1].inserted_off <= st2.stack[k2].inserted_off
                    && st2.stack[k1].removed_off <= st2.stack[k2].removed_off
                    && st2.stack[k1].errors_off <= st2.stack[k2].errors_off by {
                    assert(st2.stack[k1] == st.stack[k1]);
                    if k2 < st.stack.len() {
                        assert(st2.stack[k2] == st.stack[k2]);
                    } else {
                        assert(st2.stack[k2] == st2.stack.last());
                        assert(st.stack[k1].branches_off <= st.branches.len());
                        assert(st.stack[k1].inserted_off <= st.inserted.len());
                        assert(st.stack[k1].removed_off <= st.removed.len());
                        assert(st.stack[k1].errors_off <= st.errors.len());
                    }
                }
                assert(counts_inv(st2));
            } else if g.is_close_spec() {
                if stack_has_open(st.stack, opener_of(g)) {
                    lemma_close_pop_inv(st, index, opener_of(g), g, slack);
                } else {
                    let st2 = br_step(st, index, kind);
                    assert forall|k: int|
                        #![trigger walk_to(st2.branches, b_lo(st2, k), b_hi(st2, k))]
                        #![trigger ic_sum_to(st2.branches, b_lo(st2, k), b_hi(st2, k))]
                        #![trigger rc_sum_to(st2.branches, b_lo(st2, k), b_hi(st2, k))]
                        #![trigger err_sum_to(st2.branches, b_lo(st2, k), b_hi(st2, k))]
                        0 <= k <= st2.stack.len() implies walk_to(st2.branches, b_lo(st2, k), b_hi(st2, k))
                        == b_hi(st2, k) && ic_sum_to(st2.branches, b_lo(st2, k), b_hi(st2, k))
                        == ic_hi(st2, k) - ic_lo(st2, k) && rc_sum_to(
                        st2.branches,
                        b_lo(st2, k),
                        b_hi(st2, k),
                    ) <= rc_hi(st2, k) - rc_lo(st2, k) && err_sum_to(
                        st2.branches,
                        b_lo(st2, k),
                        b_hi(st2, k),
                    ) <= e_hi(st2, k) - e_lo(st2, k) by {
                        assert(walk_to(st.branches, b_lo(st, k), b_hi(st, k)) == b_hi(st, k));
                        assert(ic_sum_to(st.branches, b_lo(st, k), b_hi(st, k)) == ic_hi(st, k)
                            - ic_lo(st, k));
                        assert(rc_sum_to(st.branches, b_lo(st, k), b_hi(st, k)) <= rc_hi(st, k)
                            - rc_lo(st, k));
                        assert(err_sum_to(st.branches, b_lo(st, k), b_hi(st, k)) <= e_hi(st, k)
                            - e_lo(st, k));
                        assert(b_lo(st2, k) == b_lo(st, k));
                        assert(b_hi(st2, k) == b_hi(st, k));
                        assert(ic_lo(st2, k) == ic_lo(st, k));
                        assert(ic_hi(st2, k) == ic_hi(st, k));
                        assert(rc_lo(st2, k) == rc_lo(st, k));
                        assert(e_lo(st2, k) == e_lo(st, k));
                        if k < st2.stack.len() {
                            assert(rc_hi(st2, k) == rc_hi(st, k));
                            assert(e_hi(st2, k) == e_hi(st, k));
                        } else {
                            // the stray close and its error extend the top
                            // segment's share of those vectors
                            assert(rc_hi(st2, k) == st.removed.len() + 1);
                            assert(e_hi(st2, k) == st.errors.len() + 1);
                        }
                    }
                    assert(counts_inv(st2));
                }
            }
        },
        _ => {},
    }
}

/// Closing frames down to the matching opener preserves the invariant.
proof fn lemma_close_pop_inv(st: BrState, index: int, open_s: Sigil, close_s: Sigil, slack: int)
    requires
        counts_inv(st),
        cap_ok(st, slack),
        slack >= 0,
        stack_has_open(st.stack, open_s),
        open_s.is_open_spec(),
        close_s == open_s.close_of(),
        0 <= index < usize::MAX,
    ensures
        counts_inv(close_pop(st, index, open_s, close_s)),
        cap_ok(close_pop(st, index, open_s, close_s), slack),
    decreases st.stack.len(),
{
    let f = st.stack.last();
    lemma_frame_bounds(st);
    if f.open_sigil == open_s {
        let branch = Branch {
            real_token_range: Span { start: f.open_index, end: (index + 1) as usize },
            branches: (st.branches.len() - f.branches_off) as usize,
            inserted_closes: (st.inserted.len() - f.inserted_off) as usize,
            removed_closes: (st.removed.len() - f.removed_off) as usize,
            errors: (st.errors.len() - f.errors_off) as usize,
            open_sigil: open_s,
            close_sigil: close_s,
        };
        lemma_merge_top(st, branch, st.inserted, st.removed, st.errors);
    } else {
        let g = f.open_sigil;
        let inserted2 = st.inserted.push((index as usize, g.close_of()));
        let errors2 = st.errors.push((Span { start: f.open_index, end: index as usize }, g));
        let branch = Branch {
            real_token_range: Span { start: f.open_index, end: index as usize },
            branches: (st.branches.len() - f.branches_off) as usize,
            inserted_closes: (inserted2.len() - f.inserted_off) as usize,
            removed_closes: (st.removed.len() - f.removed_off) as usize,
            errors: (errors2.len() - f.errors_off) as usize,
            open_sigil: g,
            close_sigil: g.close_of(),
        };
        lemma_merge_top(st, branch, inserted2, st.removed, errors2);
        let st2 = close_one(st, branch, inserted2, errors2);
        assert(stack_has_open(st2.stack, open_s)) by {
            let k = choose|k: int|
                0 <= k < st.stack.len() && (#[trigger] st.stack[k]).open_sigil == open_s;
            assert(st2.stack[k] == st.stack[k]);
        }
        lemma_close_pop_inv(st2, index, open_s, close_s, slack);
    }
}

/// The state after depositing the top frame's branch into its parent.
spec fn close_one(
    st: BrState,
    branch: Branch,
    inserted2: Seq<(usize, Sigil)>,
    errors2: Seq<(Span, Sigil)>,
) -> BrState {
    BrState {
        stack: st.stack.drop_last(),
        branches: st.branches.insert(st.stack.last().branches_off as int, branch),
        inserted: inserted2,
        removed: st.removed,
        errors: errors2,
    }
}

/// The whole walk preserves the structural invariant.
proof fn lemma_fold_inv(kinds: Seq<TokenKind>, i: int, st: BrState)
    requires
        counts_inv(st),
        cap_ok(st, kinds.len() - i),
        0 <= i <= kinds.len() <= usize::MAX,
    ensures
        counts_inv(br_fold(kinds, i, st)),
        cap_ok(br_fold(kinds, i, st), 0),
    decreases kinds.len() - i,
{
    if i < kinds.len() {
        lemma_step_inv(st, i, kinds[i], kinds.len() - i);
        lemma_fold_inv(kinds, i + 1, br_step(st, i, kinds[i]));
    }
}

/// The end-of-input unwinding preserves the structural invariant.
proof fn lemma_unwind_inv(st: BrState, num: int)
    requires
        counts_inv(st),
        cap_ok(st, 0),
        0 <= num <= usize::MAX,
    ensures
        counts_inv(br_unwind(st, num)),
    decreases st.stack.len(),
{
    if st.stack.len() > 0 {
        let f = st.stack.last();
        lemma_frame_bounds(st);
        let g = f.open_sigil;
        let inserted2 = st.inserted.push((num as usize, g.close_of()));
        let branch = Branch {
            real_token_range: Span { start: f.open_index, end: num as usize },
            branches: (st.branches.len() - f.branches_off) as usize,
            inserted_closes: (inserted2.len() - f.inserted_off) as usize,
            removed_closes: (st.removed.len() - f.removed_off) as usize,
            errors: (st.errors.len() - f.errors_off) as usize,
            open_sigil: g,
            close_sigil: g.close_of(),
        };
        let errors2 = st.errors.insert(
            f.errors_off as int,
            (Span { start: f.open_index, end: num as usize }, g),
        );
        lemma_merge_top(st, branch, inserted2, st.removed, errors2);
        lemma_unwind_inv(
            BrState {
                stack: st.stack.drop_last(),
                branches: st.branches.insert(f.branches_off as int, branch),
                inserted: inserted2,
                removed: st.removed,
                errors: errors2,
            },
            num,
        );
    }
}

/// Count-consistency law: in the tree of any token list, hopping from the
/// first branch entry by each branch's count partitions the branch vector
/// exactly; the top-level inserted-close counts sum to the whole
/// inserted-close vector; the top-level removed-close and error counts sum
/// to at most their vectors, the remainder being entries recorded at the
/// top level itself; and every branch pairs an opener with its closer.
pub proof fn law_counts_consistent(kinds: Seq<TokenKind>)
    requires
        kinds.len() <= usize::MAX,
    ensures
        ({
            let st = bracer_spec(kinds);
            &&& walk_to(st.branches, 0, st.branches.len() as int) == st.branches.len()
            &&& ic_sum_to(st.branches, 0, st.branches.len() as int) == st.inserted.len()
            &&& rc_sum_to(st.branches, 0, st.branches.len() as int) <= st.removed.len()
            &&& err_sum_to(st.branches, 0, st.branches.len() as int) <= st.errors.len()
            &&& branches_paired(st.branches)
        }),
{
    assert(counts_inv(st_init()));
    lemma_fold_inv(kinds, 0, st_init());
    lemma_unwind_inv(br_fold(kinds, 0, st_init()), kinds.len() as int);
    let st = bracer_spec(kinds);
    assert(st.stack.len() == 0) by {
        lemma_unwind_empties(br_fold(kinds, 0, st_init()), kinds.len() as int);
    }
    assert(b_lo(st, 0) == 0 && b_hi(st, 0) == st.branches.len());
    assert(ic_lo(st, 0) == 0 && ic_hi(st, 0) == st.inserted.len());
    assert(rc_lo(st, 0) == 0 && rc_hi(st, 0) == st.removed.len());
    assert(e_lo(st, 0) == 0 && e_hi(st, 0) == st.errors.len());
}

/// The unwinding leaves no open frame.
proof fn lemma_unwind_empties(st: BrState, num: int)
    ensures
        br_unwind(st, num).stack.len() == 0,
    decreases st.stack.len(),
{
    if st.stack.len() > 0 {
        let f = st.stack.last();
        let g = f.open_sigil;
        let inserted2 = st.inserted.push((num as usize, g.close_of()));
        let branch = Branch {
            real_token_range: Span { start: f.open_index, end: num as usize },
            branches: (st.branches.len() - f.branches_off) as usize,
            inserted_closes: (inserted2.len() - f.inserted_off) as usize,
            removed_closes: (st.removed.len() - f.removed_off) as usize,
            errors: (st.errors.len() - f.errors_off) as usize,
            open_sigil: g,
            close_sigil: g.close_of(),
        };
        lemma_unwind_empties(
            BrState {
                stack: st.stack.drop_last(),
                branches: st.branches.insert(f.branches_off as int, branch),
                inserted: inserted2,
                removed: st.removed,
                errors: st.errors.insert(
                    f.errors_off as int,
                    (Span { start: f.open_index, end: num as usize }, g),
                ),
            },
            num,
        );
    }
}

/// Assemble a matching state from its five parts.
pub open spec fn st_of(
    stack: Seq<Frame>,
    branches: Seq<Branch>,
    inserted: Seq<(usize, Sigil)>,
    removed: Seq<(usize, Sigil)>,
    errors: Seq<(Span, Sigil)>,
) -> BrState {
    BrState { stack, branches, inserted, removed, errors }
}

/// The opener that a closing sigil matches.
fn opener_of_exec(g: Sigil) -> (r: Sigil)
    ensures
        r == opener_of(g),
{
    match g {
        Sigil::ParenClose => Sigil::ParenOpen,
        Sigil::BraceClose => Sigil::BraceOpen,
        Sigil::BracketClose => Sigil::BracketOpen,
        Sigil::AngleClose => Sigil::AngleOpen,
        _ => g,
    }
}

/// Scan the stack for a frame holding this opener.
fn has_open_exec(stack: &Vec<Frame>, open_s: Sigil) -> (r: bool)
    ensures
        r == stack_has_open(stack@, open_s),
{
    let mut k: usize = 0;
    while k < stack.len()
        invariant
            0 <= k <= stack@.len(),
            forall|j: int| 0 <= j < k ==> (#[trigger] stack@[j]).open_sigil != open_s,
        decreases stack@.len() - k,
    {
        if stack[k].open_sigil == open_s {
            return true;
        }
        k = k + 1;
    }
    false
}

/// Build the bracket tree of a tokenized chunk.
///
/// The four output vectors are exactly what the matching walk over the
/// token kinds produces, the end-of-input unwinding included.
pub fn bracer(chunk: ChunkLex) -> (r: Bracer)
    ensures
        r.chunk.chunk@ == chunk.chunk@,
        r.chunk.chunk.comments@ == chunk.chunk.comments@,
        r.chunk.chunk.strings@ == chunk.chunk.strings@,
        r.chunk.chunk.errors@ == chunk.chunk.errors@,
        r.chunk.tokens@ == chunk.tokens@,
        ({
            let st = bracer_spec(kinds_of(chunk.tokens@));
            &&& r.branches@ == st.branches
            &&& r.inserted_closes@ == st.inserted
            &&& r.removed_closes@ == st.removed
            &&& r.errors@ == st.errors
        }),
{
    let ghost kinds = kinds_of(chunk.tokens@);
    let num_tokens = chunk.tokens.len();
    let mut branches: Vec<Branch> = Vec::new();
    let mut inserted_closes: Vec<(usize, Sigil)> = Vec::new();
    let mut removed_closes: Vec<(usize, Sigil)> = Vec::new();
    let mut errors: Vec<(Span, Sigil)> = Vec::new();
    let mut stack: Vec<Frame> = Vec::new();
    let mut index: usize = 0;
    proof {
        assert(st_of(stack@, branches@, inserted_closes@, removed_closes@, errors@) == st_init());
    }
    while index < num_tokens
        invariant
            0 <= index <= num_tokens,
            num_tokens == chunk.tokens@.len(),
            kinds == kinds_of(chunk.tokens@),
            st_wf(st_of(stack@, branches@, inserted_closes@, removed_closes@, errors@)),
            br_fold(kinds, 0, st_init()) == br_fold(
                kinds,
                index as int,
                st_of(stack@, branches@, inserted_closes@, removed_closes@, errors@),
            ),
        decreases num_tokens - index,
    {
        let ghost st_before = st_of(stack@, branches@, inserted_closes@, removed_closes@, errors@);
        let kind = chunk.tokens[index].kind;
        proof {
            assert(kinds[index as int] == kind);
        }
        match kind {
            TokenKind::Sigil(g) => {
                if g.is_open_sigil() {
                    stack.push(
                        Frame {
                            open_index: index,
                            open_sigil: g,
                            branches_off: branches.len(),
                            inserted_off: inserted_closes.len(),
                            removed_off: removed_closes.len(),
                            errors_off: errors.len(),
                        },
                    );
                } else if g.is_close_sigil() {
                    let target = opener_of_exec(g);
                    if has_open_exec(&stack, target) {
                        let ghost goal = close_pop(st_before, index as int, target, g);
                        loop
                            invariant_except_break
                                stack_has_open(stack@, target),
                                goal == close_pop(
                                    st_of(
                                        stack@,
                                        branches@,
                                        inserted_closes@,
                                        removed_closes@,
                                        errors@,
                                    ),
                                    index as int,
                                    target,
                                    g,
                                ),
                            invariant
                                st_wf(
                                    st_of(
                                        stack@,
                                        branches@,
                                        inserted_closes@,
                                        removed_closes@,
                                        errors@,
                                    ),
                                ),
                                index < num_tokens,
                            ensures
                                st_wf(
                                    st_of(
                                        stack@,
                                        branches@,
                                        inserted_closes@,
                                        removed_closes@,
                                        errors@,
                                    ),
                                ),
                                goal == st_of(
                                    stack@,
                                    branches@,
                                    inserted_closes@,
                                    removed_closes@,
                                    errors@,
                                ),
                            decreases stack@.len(),
                        {
                            let ghost st_loop = st_of(
                                stack@,
                                branches@,
                                inserted_closes@,
                                removed_closes@,
                                errors@,
                            );
                            let f = match stack.pop() {
                                Some(f) => f,
                                None => {
                                    proof {
                                        assert(false);
                                    }
                                    break ;
                                },
                            };
                            proof {
                                assert(f == st_loop.stack.last());
                                assert(stack@ == st_loop.stack.drop_last());
                            }
                            if f.open_sigil == target {
                                let branch = Branch {
                                    real_token_range: Span { start: f.open_index, end: index + 1 },
                                    branches: branches.len() - f.branches_off,
                                    inserted_closes: inserted_closes.len() - f.inserted_off,
                                    removed_closes: removed_closes.len() - f.removed_off,
                                    errors: errors.len() - f.errors_off,
                                    open_sigil: target,
                                    close_sigil: g,
                                };
                                branches.insert(f.branches_off, branch);
                                proof {
                                    let st_now = st_of(
                                        stack@,
                                        branches@,
                                        inserted_closes@,
                                        removed_closes@,
                                        errors@,
                                    );
                                    assert(st_now == close_pop(st_loop, index as int, target, g));
                                }
                                break ;
                            } else {
                                let synth = f.open_sigil.close_sigil();
                                inserted_closes.push((index, synth));
                                errors.push(
                                    (Span { start: f.open_index, end: index }, f.open_sigil),
                                );
                                let branch = Branch {
                                    real_token_range: Span { start: f.open_index, end: index },
                                    branches: branches.len() - f.branches_off,
                                    inserted_closes: inserted_closes.len() - f.inserted_off,
                                    removed_closes: removed_closes.len() - f.removed_off,
                                    errors: errors.len() - f.errors_off,
                                    open_sigil: f.open_sigil,
                                    close_sigil: synth,
                                };
                                branches.insert(f.branches_off, branch);
                                proof {
                                    let st_now = st_of(
                                        stack@,
                                        branches@,
                                        inserted_closes@,
                                        removed_closes@,
                                        errors@,
                                    );
                                    assert(stack_has_open(stack@, target)) by {
                                        let k = choose|k: int|
                                            0 <= k < st_loop.stack.len() && (
                                            #[trigger] st_loop.stack[k]).open_sigil == target;
                                        assert(stack@[k] == st_loop.stack[k]);
                                    }
                                    assert(close_pop(st_loop, index as int, target, g) == close_pop(
                                        st_now,
                                        index as int,
                                        target,
                                        g,
                                    ));
                                }
                            }
                        }
                        proof {
                            assert(st_of(
                                stack@,
                                branches@,
                                inserted_closes@,
                                removed_closes@,
                                errors@,
                            ) == br_step(st_before, index as int, kind));
                        }
                    } else {
                        removed_closes.push((index, g));
                        errors.push((Span { start: index, end: index + 1 }, g));
                    }
                } else {
                    // a non-bracket sigil takes no part in matching
                }
            },
            _ => {},
        }
        proof {
            let st_after = st_of(stack@, branches@, inserted_closes@, removed_closes@, errors@);
            assert(st_after == br_step(st_before, index as int, kind));
        }
        index = index + 1;
    }
    // end of input: unwind the surviving openers
    while stack.len() > 0
        invariant
            st_wf(st_of(stack@, branches@, inserted_closes@, removed_closes@, errors@)),
            br_unwind(br_fold(kinds, 0, st_init()), num_tokens as int) == br_unwind(
                st_of(stack@, branches@, inserted_closes@, removed_closes@, errors@),
                num_tokens as int,
            ),
        ensures
            stack@.len() == 0,
            br_unwind(br_fold(kinds, 0, st_init()), num_tokens as int) == br_unwind(
                st_of(stack@, branches@, inserted_closes@, removed_closes@, errors@),
                num_tokens as int,
            ),
        decreases stack@.len(),
    {
        let ghost st_loop = st_of(stack@, branches@, inserted_closes@, removed_closes@, errors@);
        let f = match stack.pop() {
            Some(f) => f,
            None => {
                proof {
                    assert(false);
                }
                break ;
            },
        };
        proof {
            assert(f == st_loop.stack.last());
            assert(stack@ == st_loop.stack.drop_last());
        }
        let synth = f.open_sigil.close_sigil();
        inserted_closes.push((num_tokens, synth));
        let branch = Branch {
            real_token_range: Span { start: f.open_index, end: num_tokens },
            branches: branches.len() - f.branches_off,
            inserted_closes: inserted_closes.len() - f.inserted_off,
            removed_closes: removed_closes.len() - f.removed_off,
            errors: errors.len() - f.errors_off,
            open_sigil: f.open_sigil,
            close_sigil: synth,
        };
        branches.insert(f.branches_off, branch);
        errors.insert(f.errors_off, (Span { start: f.open_index, end: num_tokens }, f.open_sigil));
        proof {
            let st_now = st_of(stack@, branches@, inserted_closes@, removed_closes@, errors@);
            assert(br_unwind(st_loop, num_tokens as int) == br_unwind(st_now, num_tokens as int));
        }
    }
    proof {
        let st_final = st_of(stack@, branches@, inserted_closes@, removed_closes@, errors@);
        assert(st_final.stack.len() == 0);
        assert(br_unwind(st_final, num_tokens as int) == st_final);
    }
    Bracer { chunk, branches, inserted_closes, removed_closes, errors }
}

/// A cursor over one subtree of a bracket tree: the bounds of the subtree's
/// slice in each flat vector, and the next position in each. Cloning is a
/// copy of a few indices, so nested iteration is cheap.
#[derive(Clone, Copy, Debug, PartialEq, Eq, Structural)]
pub struct BracerIter {
    pub real_token_range: Span,
    pub branches: Span,
    pub inserted_closes: Span,
    pub removed_closes: Span,
    pub next_token_index: usize,
    pub next_branch_index: usize,
    pub next_inserted_close_index: usize,
    pub next_removed_close_index: usize,
}

/// One element of tree iteration: a real token, or a nested branch with a
/// cursor over its subtree.
#[derive(Clone, Copy, Debug, PartialEq, Eq, Structural)]
pub enum TreeToken {
    Token(Token),
    Branch(Sigil, BracerIter),
}

impl BracerIter {
    /// The cursor stays within the tree's vectors.
    pub open spec fn wf(self, tree: &Bracer) -> bool {
        &&& self.real_token_range.end <= tree.chunk.tokens@.len()
        &&& self.branches.end <= tree.branches@.len()
        &&& self.inserted_closes.end <= tree.inserted_closes@.len()
        &&& self.removed_closes.end <= tree.removed_closes@.len()
        &&& self.next_token_index <= self.real_token_range.end
        &&& self.next_branch_index <= self.branches.end
        &&& self.next_inserted_close_index <= self.inserted_closes.end
        &&& self.next_removed_close_index <= self.removed_closes.end
    }

    /// How much of the subtree is still ahead of the cursor.
    pub open spec fn measure(self) -> int {
        (self.real_token_range.end - self.next_token_index) + (self.branches.end
            - self.next_branch_index) + (self.inserted_closes.end - self.next_inserted_close_index)
            + (self.removed_closes.end - self.next_removed_close_index)
    }
}

/// `base + count`, clamped to `end`: where a cursor lands after a jump.
pub open spec fn clamp_add_spec(base: int, count: int, end: int) -> int {
    if base + count <= end {
        base + count
    } else {
        end
    }
}

/// Skip the removed closes that lie behind the token cursor: a stray close
/// inside a synthesised branch must not be consulted again at this level.
pub open spec fn skip_rcs(tree: &Bracer, it: BracerIter) -> BracerIter
    decreases it.removed_closes.end - it.next_removed_close_index
        when it.next_removed_close_index <= it.removed_closes.end
{
    if it.next_removed_close_index < it.removed_closes.end && tree.removed_closes@[it.next_removed_close_index as int].0
        < it.next_token_index {
        skip_rcs(
            tree,
            BracerIter {
                next_removed_close_index: (it.next_removed_close_index + 1) as usize,
                ..it
            },
        )
    } else {
        it
    }
}

/// One step of tree iteration, as a function of the tree and the cursor:
/// the element yielded next, if any, and the cursor after it. A real token
/// is yielded unless it is a structural close sigil or a removed close; at
/// a branch entry, a nested cursor over its counted slices is yielded and
/// the own cursor jumps past the whole subtree; synthesised closes hold no
/// element. `None` comes exactly when the subtree is exhausted.
pub open spec fn next_spec(tree: &Bracer, it: BracerIter) -> (Option<TreeToken>, BracerIter)
    decreases it.measure() when it.wf(tree) via next_spec_dec
{
    let have_token = it.next_token_index < it.real_token_range.end;
    let have_branch = it.next_branch_index < it.branches.end;
    let have_ic = it.next_inserted_close_index < it.inserted_closes.end;
    let have_rc = it.next_removed_close_index < it.removed_closes.end;
    if have_token {
        if have_branch {
            let b = tree.branches@[it.next_branch_index as int];
            if it.next_token_index < b.real_token_range.start {
                let t = tree.chunk.tokens@[it.next_token_index as int];
                (
                    Some(TreeToken::Token(t)),
                    BracerIter { next_token_index: (it.next_token_index + 1) as usize, ..it },
                )
            } else {
                let t_start = (it.next_token_index + 1) as usize;
                let nb = (it.next_branch_index + 1) as usize;
                let t_end = clamp_add_spec(
                    t_start as int,
                    if b.real_token_range.end >= t_start {
                        b.real_token_range.end - t_start
                    } else {
                        0
                    },
                    it.real_token_range.end as int,
                );
                let b_end = clamp_add_spec(nb as int, b.branches as int, it.branches.end as int);
                let ic_end = clamp_add_spec(
                    it.next_inserted_close_index as int,
                    b.inserted_closes as int,
                    it.inserted_closes.end as int,
                );
                let rc_end = clamp_add_spec(
                    it.next_removed_close_index as int,
                    b.removed_closes as int,
                    it.removed_closes.end as int,
                );
                let sub = BracerIter {
                    real_token_range: Span { start: t_start, end: t_end as usize },
                    branches: Span { start: nb, end: b_end as usize },
                    inserted_closes: Span {
                        start: it.next_inserted_close_index,
                        end: ic_end as usize,
                    },
                    removed_closes: Span {
                        start: it.next_removed_close_index,
                        end: rc_end as usize,
                    },
                    next_token_index: t_start,
                    next_branch_index: nb,
                    next_inserted_close_index: it.next_inserted_close_index,
                    next_removed_close_index: it.next_removed_close_index,
                };
                let post = BracerIter {
                    next_token_index: t_end as usize,
                    next_branch_index: b_end as usize,
                    next_inserted_close_index: ic_end as usize,
                    next_removed_close_index: rc_end as usize,
                    ..it
                };
                (Some(TreeToken::Branch(b.open_sigil, sub)), skip_rcs(tree, post))
            }
        } else if have_rc {
            let rc = tree.removed_closes@[it.next_removed_close_index as int];
            if it.next_token_index < rc.0 {
                let t = tree.chunk.tokens@[it.next_token_index as int];
                let it2 = BracerIter {
                    next_token_index: (it.next_token_index + 1) as usize,
                    ..it
                };
                if !t.is_close_sigil_spec() {
                    (Some(TreeToken::Token(t)), it2)
                } else {
                    next_spec(tree, it2)
                }
            } else if it.next_token_index == rc.0 {
                next_spec(
                    tree,
                    BracerIter {
                        next_token_index: (it.next_token_index + 1) as usize,
                        next_removed_close_index: (it.next_removed_close_index + 1) as usize,
                        ..it
                    },
                )
            } else {
                next_spec(
                    tree,
                    BracerIter {
                        next_removed_close_index: (it.next_removed_close_index + 1) as usize,
                        ..it
                    },
                )
            }
        } else {
            let t = tree.chunk.tokens@[it.next_token_index as int];
            let it2 = BracerIter { next_token_index: (it.next_token_index + 1) as usize, ..it };
            if !t.is_close_sigil_spec() {
                (Some(TreeToken::Token(t)), it2)
            } else {
                next_spec(tree, it2)
            }
        }
    } else if have_branch {
        next_spec(tree, BracerIter { next_branch_index: (it.next_branch_index + 1) as usize, ..it })
    } else if have_ic {
        next_spec(
            tree,
            BracerIter {
                next_inserted_close_index: (it.next_inserted_close_index + 1) as usize,
                ..it
            },
        )
    } else if have_rc {
        next_spec(
            tree,
            BracerIter {
                next_removed_close_index: (it.next_removed_close_index + 1) as usize,
                ..it
            },
        )
    } else {
        (None, it)
    }
}

#[via_fn]
proof fn next_spec_dec(tree: &Bracer, it: BracerIter) {
}

/// Skipping removed closes keeps the cursor well-formed, leaves every
/// other field alone, and cannot grow the measure.
pub proof fn lemma_skip_rcs_props(tree: &Bracer, it: BracerIter)
    requires
        it.wf(tree),
    ensures
        ({
            let it2 = skip_rcs(tree, it);
            &&& it2.wf(tree)
            &&& it2.measure() <= it.measure()
            &&& it2 == (BracerIter { next_removed_close_index: it2.next_removed_close_index, ..it })
        }),
    decreases it.removed_closes.end - it.next_removed_close_index,
{
    if it.next_removed_close_index < it.removed_closes.end && tree.removed_closes@[it.next_removed_close_index as int].0
        < it.next_token_index {
        lemma_skip_rcs_props(
            tree,
            BracerIter {
                next_removed_close_index: (it.next_removed_close_index + 1) as usize,
                ..it
            },
        );
    }
}

/// What one iteration step guarantees: the cursor stays well-formed, a
/// yielded element shrinks the measure, and a yielded branch cursor fits
/// beside the advanced own cursor.
pub proof fn lemma_next_spec_props(tree: &Bracer, it: BracerIter)
    requires
        it.wf(tree),
    ensures
        ({
            let (r, it2) = next_spec(tree, it);
            &&& it2.wf(tree)
            &&& it2.measure() <= it.measure()
            &&& (r is Some ==> it2.measure() < it.measure())
            &&& (r matches Some(tt) ==> match tt {
                TreeToken::Token(_) => true,
                TreeToken::Branch(_, sub) => sub.wf(tree) && sub.measure() + it2.measure()
                    < it.measure(),
            })
        }),
    decreases it.measure(),
{
    let have_token = it.next_token_index < it.real_token_range.end;
    let have_branch = it.next_branch_index < it.branches.end;
    let have_ic = it.next_inserted_close_index < it.inserted_closes.end;
    let have_rc = it.next_removed_close_index < it.removed_closes.end;
    if have_token {
        if have_branch {
            let b = tree.branches@[it.next_branch_index as int];
            if it.next_token_index < b.real_token_range.start {
            } else {
                let (r, it2) = next_spec(tree, it);
                let t_start = (it.next_token_index + 1) as usize;
                let nb = (it.next_branch_index + 1) as usize;
                let t_end = clamp_add_spec(
                    t_start as int,
                    if b.real_token_range.end >= t_start {
                        b.real_token_range.end - t_start
                    } else {
                        0
                    },
                    it.real_token_range.end as int,
                );
                let b_end = clamp_add_spec(nb as int, b.branches as int, it.branches.end as int);
                let ic_end = clamp_add_spec(
                    it.next_inserted_close_index as int,
                    b.inserted_closes as int,
                    it.inserted_closes.end as int,
                );
                let rc_end = clamp_add_spec(
                    it.next_removed_close_index as int,
                    b.removed_closes as int,
                    it.removed_closes.end as int,
                );
                let post = BracerIter {
                    next_token_index: t_end as usize,
                    next_branch_index: b_end as usize,
                    next_inserted_close_index: ic_end as usize,
                    next_removed_close_index: rc_end as usize,
                    ..it
                };
                lemma_skip_rcs_props(tree, post);
            }
        } else if have_rc {
            let rc = tree.removed_closes@[it.next_removed_close_index as int];
            if it.next_token_index < rc.0 {
                let t = tree.chunk.tokens@[it.next_token_index as int];
                if t.is_close_sigil_spec() {
                    lemma_next_spec_props(
                        tree,
                        BracerIter {
                            next_token_index: (it.next_token_index + 1) as usize,
                            ..it
                        },
                    );
                }
            } else if it.next_token_index == rc.0 {
                lemma_next_spec_props(
                    tree,
                    BracerIter {
                        next_token_index: (it.next_token_index + 1) as usize,
                        next_removed_close_index: (it.next_removed_close_index + 1) as usize,
                        ..it
                    },
                );
            } else {
                lemma_next_spec_props(
                    tree,
                    BracerIter {
                        next_removed_close_index: (it.next_removed_close_index + 1) as usize,
                        ..it
                    },
                );
            }
        } else {
            let t = tree.chunk.tokens@[it.next_token_index as int];
            if t.is_close_sigil_spec() {
                lemma_next_spec_props(
                    tree,
                    BracerIter { next_token_index: (it.next_token_index + 1) as usize, ..it },
                );
            }
        }
    } else if have_branch {
        lemma_next_spec_props(
            tree,
            BracerIter { next_branch_index: (it.next_branch_index + 1) as usize, ..it },
        );
    } else if have_ic {
        lemma_next_spec_props(
            tree,
            BracerIter {
                next_inserted_close_index: (it.next_inserted_close_index + 1) as usize,
                ..it
            },
        );
    } else if have_rc {
        lemma_next_spec_props(
            tree,
            BracerIter {
                next_removed_close_index: (it.next_removed_close_index + 1) as usize,
                ..it
            },
        );
    }
}

impl Bracer {
    /// The cursor over the whole tree, at its start.
    pub open spec fn start_iter(&self) -> BracerIter {
        BracerIter {
            real_token_range: Span { start: 0, end: self.chunk.tokens@.len() as usize },
            branches: Span { start: 0, end: self.branches@.len() as usize },
            inserted_closes: Span { start: 0, end: self.inserted_closes@.len() as usize },
            removed_closes: Span { start: 0, end: self.removed_closes@.len() as usize },
            next_token_index: 0,
            next_branch_index: 0,
            next_inserted_close_index: 0,
            next_removed_close_index: 0,
        }
    }

    /// A cursor over the whole tree.
    pub fn iter(&self) -> (it: BracerIter)
        ensures
            it == self.start_iter(),
            it.wf(self),
            it.real_token_range == (Span { start: 0, end: self.chunk.tokens@.len() as usize }),
            it.branches == (Span { start: 0, end: self.branches@.len() as usize }),
            it.inserted_closes == (Span { start: 0, end: self.inserted_closes@.len() as usize }),
            it.removed_closes == (Span { start: 0, end: self.removed_closes@.len() as usize }),
            it.next_token_index == 0 && it.next_branch_index == 0
                && it.next_inserted_close_index == 0 && it.next_removed_close_index == 0,
    {
        BracerIter {
            real_token_range: Span { start: 0, end: self.chunk.tokens.len() },
            branches: Span { start: 0, end: self.branches.len() },
            inserted_closes: Span { start: 0, end: self.inserted_closes.len() },
            removed_closes: Span { start: 0, end: self.removed_closes.len() },
            next_token_index: 0,
            next_branch_index: 0,
            next_inserted_close_index: 0,
            next_removed_close_index: 0,
        }
    }
}

/// The source byte span of the subtree under a cursor: from its opener
/// (one before its token range) through its closer (the range's last
/// token), when both stand in the token list.
pub open spec fn iter_text_span_spec(tree: &Bracer, it: BracerIter) -> Option<Span> {
    let n = tree.chunk.tokens@.len() as int;
    let os = it.real_token_range.start;
    let cs = it.real_token_range.end;
    if 1 <= os && 1 <= cs && os - 1 < n && cs - 1 < n {
        Some(
            Span {
                start: tree.chunk.tokens@[os - 1].span.start,
                end: tree.chunk.tokens@[cs - 1].span.end,
            },
        )
    } else {
        None
    }
}

impl BracerIter {
    /// The source byte span from this subtree's opener through its closer,
    /// when both stand in the token list; a cursor over the whole tree, or
    /// over a branch whose closer was synthesised at the end of input, has
    /// no such span.
    pub fn text_span(&self, tree: &Bracer) -> (r: Option<Span>)
        ensures
            r == iter_text_span_spec(tree, *self),
    {
        let n = tree.chunk.tokens.len();
        let os = self.real_token_range.start;
        let cs = self.real_token_range.end;
        if 1 <= os && 1 <= cs && os - 1 < n && cs - 1 < n {
            let open_token = tree.chunk.tokens[os - 1];
            let close_token = tree.chunk.tokens[cs - 1];
            Some(Span { start: open_token.span.start, end: close_token.span.end })
        } else {
            None
        }
    }

    /// Yield the next element of the subtree: a real token, skipping the
    /// structural close sigils and the removed closes, or a nested branch,
    /// advancing this cursor past the whole subtree.
    pub fn next(&mut self, tree: &Bracer) -> (r: Option<TreeToken>)
        requires
            old(self).wf(tree),
        ensures
            r == next_spec(tree, *old(self)).0,
            *final(self) == next_spec(tree, *old(self)).1,
            final(self).wf(tree),
            final(self).real_token_range.end == old(self).real_token_range.end,
            final(self).branches.end == old(self).branches.end,
            r is Some ==> final(self).measure() < old(self).measure(),
            r matches Some(TreeToken::Token(t)) ==> exists|j: int|
                old(self).next_token_index <= j < final(self).next_token_index
                    && tree.chunk.tokens@[j] == t,
            r matches Some(TreeToken::Branch(g, sub)) ==> {
                &&& sub.wf(tree)
                &&& sub.measure() + final(self).measure() < old(self).measure()
                &&& exists|j: int|
                    old(self).next_branch_index <= j < final(self).next_branch_index && (
                    #[trigger] tree.branches@[j]).open_sigil == g
            },
            r is None ==> {
                &&& final(self).next_token_index == final(self).real_token_range.end
                &&& final(self).next_branch_index == final(self).branches.end
                &&& final(self).next_inserted_close_index == final(self).inserted_closes.end
                &&& final(self).next_removed_close_index == final(self).removed_closes.end
            },
    {
        loop
            invariant
                self.wf(tree),
                self.real_token_range.end == old(self).real_token_range.end,
                self.branches.end == old(self).branches.end,
                self.inserted_closes.end == old(self).inserted_closes.end,
                self.removed_closes.end == old(self).removed_closes.end,
                old(self).next_token_index <= self.next_token_index,
                old(self).next_branch_index <= self.next_branch_index,
                self.measure() <= old(self).measure(),
                next_spec(tree, *old(self)) == next_spec(tree, *self),
            decreases self.measure(),
        {
            let ghost loop_self = *self;
            let have_token = self.next_token_index < self.real_token_range.end;
            let have_branch = self.next_branch_index < self.branches.end;
            let have_ic = self.next_inserted_close_index < self.inserted_closes.end;
            let have_rc = self.next_removed_close_index < self.removed_closes.end;
            if have_token {
                if have_branch {
                    let b = tree.branches[self.next_branch_index];
                    if self.next_token_index < b.real_token_range.start {
                        let t = tree.chunk.tokens[self.next_token_index];
                        self.next_token_index = self.next_token_index + 1;
                        proof {
                            assert(next_spec(tree, loop_self) == (
                                Some(TreeToken::Token(t)),
                                *self,
                            ));
                        }
                        return Some(TreeToken::Token(t));
                    } else {
                        // the branch starts here: hand out a nested cursor
                        // and advance past the whole subtree
                        let t_start = self.next_token_index + 1;
                        self.next_token_index = t_start;
                        self.next_branch_index = self.next_branch_index + 1;
                        let t_end = clamp_add(
                            t_start,
                            if b.real_token_range.end >= t_start {
                                b.real_token_range.end - t_start
                            } else {
                                0
                            },
                            self.real_token_range.end,
                        );
                        let b_end = clamp_add(self.next_branch_index, b.branches, self.branches.end);
                        let ic_end = clamp_add(
                            self.next_inserted_close_index,
                            b.inserted_closes,
                            self.inserted_closes.end,
                        );
                        let rc_end = clamp_add(
                            self.next_removed_close_index,
                            b.removed_closes,
                            self.removed_closes.end,
                        );
                        let sub = BracerIter {
                            real_token_range: Span { start: t_start, end: t_end },
                            branches: Span { start: self.next_branch_index, end: b_end },
                            inserted_closes: Span {
                                start: self.next_inserted_close_index,
                                end: ic_end,
                            },
                            removed_closes: Span { start: self.next_removed_close_index, end: rc_end },
                            next_token_index: t_start,
                            next_branch_index: self.next_branch_index,
                            next_inserted_close_index: self.next_inserted_close_index,
                            next_removed_close_index: self.next_removed_close_index,
                        };
                        self.next_token_index = t_end;
                        self.next_branch_index = b_end;
                        self.next_inserted_close_index = ic_end;
                        self.next_removed_close_index = rc_end;
                        let ghost post = *self;
                        proof {
                            assert(tree.branches@[loop_self.next_branch_index as int].open_sigil
                                == b.open_sigil);
                        }
                        // skip removed closes that now lie behind the cursor:
                        // a stray close inside a synthesised branch must not
                        // be consulted again at this level
                        loop
                            invariant
                                self.wf(tree),
                                self.real_token_range.end == old(self).real_token_range.end,
                                self.branches.end == old(self).branches.end,
                                self.inserted_closes.end == old(self).inserted_closes.end,
                                self.removed_closes.end == old(self).removed_closes.end,
                                old(self).next_token_index <= self.next_token_index,
                                old(self).next_branch_index <= self.next_branch_index,
                                sub.wf(tree),
                                sub.measure() + self.measure() < old(self).measure(),
                                skip_rcs(tree, post) == skip_rcs(tree, *self),
                                exists|j: int|
                                    old(self).next_branch_index <= j < self.next_branch_index && (
                                    #[trigger] tree.branches@[j]).open_sigil == b.open_sigil,
                            ensures
                                self.wf(tree),
                                self.real_token_range.end == old(self).real_token_range.end,
                                self.branches.end == old(self).branches.end,
                                self.inserted_closes.end == old(self).inserted_closes.end,
                                self.removed_closes.end == old(self).removed_closes.end,
                                old(self).next_token_index <= self.next_token_index,
                                old(self).next_branch_index <= self.next_branch_index,
                                sub.wf(tree),
                                sub.measure() + self.measure() < old(self).measure(),
                                skip_rcs(tree, post) == *self,
                                exists|j: int|
                                    old(self).next_branch_index <= j < self.next_branch_index && (
                                    #[trigger] tree.branches@[j]).open_sigil == b.open_sigil,
                            decreases self.removed_closes.end - self.next_removed_close_index,
                        {
                            if self.next_removed_close_index >= self.removed_closes.end {
                                break ;
                            }
                            let rc = tree.removed_closes[self.next_removed_close_index];
                            if rc.0 >= self.next_token_index {
                                break ;
                            }
                            self.next_removed_close_index = self.next_removed_close_index + 1;
                        }
                        proof {
                            assert(next_spec(tree, loop_self) == (
                                Some(TreeToken::Branch(b.open_sigil, sub)),
                                skip_rcs(tree, post),
                            ));
                        }
                        return Some(TreeToken::Branch(b.open_sigil, sub));
                    }
                } else if have_rc {
                    let rc = tree.removed_closes[self.next_removed_close_index];
                    if self.next_token_index < rc.0 {
                        let t = tree.chunk.tokens[self.next_token_index];
                        self.next_token_index = self.next_token_index + 1;
                        if !t.is_close_sigil() {
                            proof {
                                assert(next_spec(tree, loop_self) == (
                                    Some(TreeToken::Token(t)),
                                    *self,
                                ));
                            }
                            return Some(TreeToken::Token(t));
                        }
                    } else if self.next_token_index == rc.0 {
                        self.next_token_index = self.next_token_index + 1;
                        self.next_removed_close_index = self.next_removed_close_index + 1;
                    } else {
                        // a removed close behind the cursor: step past it
                        self.next_removed_close_index = self.next_removed_close_index + 1;
                    }
                } else {
                    let t = tree.chunk.tokens[self.next_token_index];
                    self.next_token_index = self.next_token_index + 1;
                    if !t.is_close_sigil() {
                        proof {
                            assert(next_spec(tree, loop_self) == (
                                Some(TreeToken::Token(t)),
                                *self,
                            ));
                        }
                        return Some(TreeToken::Token(t));
                    }
                }
            } else if have_branch {
                // a branch entry past the token range: step past it
                self.next_branch_index = self.next_branch_index + 1;
            } else if have_ic {
                // a synthesised close holds no token: step past it
                self.next_inserted_close_index = self.next_inserted_close_index + 1;
            } else if have_rc {
                self.next_removed_close_index = self.next_removed_close_index + 1;
            } else {
                proof {
                    assert(next_spec(tree, loop_self) == (None::<TreeToken>, *self));
                }
                return None;
            }
        }
    }
}

/// `base + count`, clamped to `end` so that a cursor never leaves its slice.
fn clamp_add(base: usize, count: usize, end: usize) -> (r: usize)
    requires
        base <= end,
    ensures
        base <= r <= end,
        count <= end - base ==> r == base + count,
        r as int == clamp_add_spec(base as int, count as int, end as int),
{
    if count <= end - base {
        base + count
    } else {
        end
    }
}

/// The closer of an opening bracket sigil; any other sigil is its own.
fn close_of_exec(g: Sigil) -> (r: Sigil)
    ensures
        r == g.close_of(),
{
    match g {
        Sigil::ParenOpen => Sigil::ParenClose,
        Sigil::BraceOpen => Sigil::BraceClose,
        Sigil::BracketOpen => Sigil::BracketClose,
        Sigil::AngleOpen => Sigil::AngleClose,
        _ => g,
    }
}

/// The canonical rendering of a subtree from a cursor, appended to what
/// was rendered so far: the items in iteration order, space-separated.
pub open spec fn render_spec(tree: &Bracer, it: BracerIter, acc: Seq<u8>) -> Seq<u8>
    decreases it.measure(), 1int when it.wf(tree) via render_spec_dec
{
    let (r, it2) = next_spec(tree, it);
    match r {
        None => acc,
        Some(tt) => {
            let acc2 = if acc.len() > 0 {
                acc + seq![32u8]
            } else {
                acc
            };
            render_spec(tree, it2, acc2 + tt_debug_spec(tree, tt))
        },
    }
}

#[via_fn]
proof fn render_spec_dec(tree: &Bracer, it: BracerIter, acc: Seq<u8>) {
    lemma_next_spec_props(tree, it);
}

/// The canonical rendering of one element: a token's debug form, or a
/// branch as its opener, its rendered contents, and its closer.
pub open spec fn tt_debug_spec(tree: &Bracer, tt: TreeToken) -> Seq<u8>
    decreases tt.spec_measure(), 0int when (tt matches TreeToken::Branch(g, sub) ==> sub.wf(tree))
{
    match tt {
        TreeToken::Token(t) => crate::lexer::token_debug_bytes(t, tree.chunk.chunk@),
        TreeToken::Branch(g, sub) => {
            let inner = render_spec(tree, sub, Seq::<u8>::empty());
            g.lexeme_bytes() + seq![32u8] + inner + (if inner.len() > 0 {
                seq![32u8]
            } else {
                Seq::<u8>::empty()
            }) + g.close_of().lexeme_bytes()
        },
    }
}

impl Bracer {
    /// Every token's span lies inside the chunk text.
    pub open spec fn tokens_wf(&self) -> bool {
        forall|k: int|
            0 <= k < self.chunk.tokens@.len() ==> {
                let t = #[trigger] self.chunk.tokens@[k];
                t.span.start <= t.span.end <= self.chunk.chunk@.len()
            }
    }

    /// Render the whole tree in the canonical diagnostic form: items are
    /// space-separated, and each branch is shown as its opener, its
    /// contents, and its closer, the synthesised closers included.
    pub fn debug_str(&self) -> (r: Vec<u8>)
        requires
            self.tokens_wf(),
        ensures
            r@ == render_spec(self, self.start_iter(), Seq::<u8>::empty()),
    {
        let it = self.iter();
        render_sub(self, it)
    }
}

/// Render the subtree under a cursor, space-separating the items.
fn render_sub(tree: &Bracer, iter: BracerIter) -> (r: Vec<u8>)
    requires
        iter.wf(tree),
        tree.tokens_wf(),
    ensures
        r@ == render_spec(tree, iter, Seq::<u8>::empty()),
    decreases iter.measure(), 1int,
{
    let mut out: Vec<u8> = Vec::new();
    let mut it = iter;
    proof {
        assert(out@ =~= Seq::<u8>::empty());
    }
    loop
        invariant
            it.wf(tree),
            tree.tokens_wf(),
            it.measure() <= iter.measure(),
            render_spec(tree, iter, Seq::<u8>::empty()) == render_spec(tree, it, out@),
        ensures
            render_spec(tree, iter, Seq::<u8>::empty()) == out@,
        decreases it.measure(),
    {
        let ghost it_before = it;
        let ghost out_before = out@;
        let item = it.next(tree);
        match item {
            None => {
                proof {
                    assert(render_spec(tree, it_before, out_before) == out_before);
                }
                break ;
            },
            Some(tt) => {
                if out.len() > 0 {
                    out.push(32);
                }
                let ghost acc2 = out@;
                proof {
                    assert(acc2 =~= if out_before.len() > 0 {
                        out_before + seq![32u8]
                    } else {
                        out_before
                    });
                }
                let mut piece = tt.debug_str(tree);
                out.append(&mut piece);
                proof {
                    assert(out@ =~= acc2 + tt_debug_spec(tree, tt));
                    assert(render_spec(tree, it_before, out_before) == render_spec(
                        tree,
                        it,
                        out@,
                    ));
                }
            },
        }
    }
    out
}

impl TreeToken {
    /// The element can be rendered against this tree.
    pub open spec fn wf(self, tree: &Bracer) -> bool {
        match self {
            TreeToken::Token(t) => t.span.start <= t.span.end <= tree.chunk.chunk@.len(),
            TreeToken::Branch(_, sub) => sub.wf(tree),
        }
    }

    /// How much tree lies under this element.
    pub open spec fn spec_measure(self) -> int {
        match self {
            TreeToken::Token(_) => 0,
            TreeToken::Branch(_, sub) => sub.measure() + 1,
        }
    }

    /// The canonical diagnostic rendering of this element: a token's debug
    /// form, or a branch as its opener, its contents and its closer.
    pub fn debug_str(&self, tree: &Bracer) -> (r: Vec<u8>)
        requires
            self.wf(tree),
            tree.tokens_wf(),
        ensures
            r@ == tt_debug_spec(tree, *self),
        decreases self.spec_measure(), 0int,
    {
        match self {
            TreeToken::Token(t) => t.debug_str(&tree.chunk.chunk.text),
            TreeToken::Branch(g, sub) => {
                let mut out: Vec<u8> = Vec::new();
                let mut open_piece = crate::lexer::sigil_lexeme_vec(*g);
                out.append(&mut open_piece);
                out.push(32);
                let mut inner = render_sub(tree, *sub);
                let inner_empty = inner.len() == 0;
                let ghost inner_spec = inner@;
                out.append(&mut inner);
                if !inner_empty {
                    out.push(32);
                }
                let mut close_piece = crate::lexer::sigil_lexeme_vec(close_of_exec(*g));
                out.append(&mut close_piece);
                proof {
                    assert(out@ =~= g.lexeme_bytes() + seq![32u8] + inner_spec + (
                    if inner_spec.len() > 0 {
                        seq![32u8]
                    } else {
                        Seq::<u8>::empty()
                    }) + g.close_of().lexeme_bytes());
                }
                out
            },
        }
    }
}

impl TreeToken {
    /// The source byte span of this element.
    pub fn text_span(&self, tree: &Bracer) -> (r: Option<Span>)
        ensures
            self matches TreeToken::Token(t) ==> r == Some(t.span),
            self matches TreeToken::Branch(g, it) ==> r == iter_text_span_spec(tree, *it),
    {
        match self {
            TreeToken::Token(t) => Some(t.span),
            TreeToken::Branch(_, it) => it.text_span(tree),
        }
    }

    /// Drop the element when it is a whitespace token.
    pub fn without_space(self) -> (r: Option<TreeToken>)
        ensures
            ({
                match self {
                    TreeToken::Token(t) => (t.kind == TokenKind::Whitespace ==> r is None) && (
                    t.kind != TokenKind::Whitespace ==> r == Some(self)),
                    TreeToken::Branch(..) => r == Some(self),
                }
            }),
    {
        match self {
            TreeToken::Token(t) => {
                match t.without_space() {
                    Some(t2) => Some(TreeToken::Token(t2)),
                    None => None,
                }
            },
            TreeToken::Branch(..) => Some(self),
        }
    }
}

} // verus!
