//! Source segmenter: partitions raw text into comment, string and error
//! ranges, leaving the remainder implicitly unknown.
//!
//! The walk is total: an unterminated construct becomes an error range that
//! runs to the end of the text, never a failure.

use vstd::prelude::*;

use crate::chunk::{spans_wf, spans_disjoint, Chunk};
use crate::search::{find_byte_from, lemma_find_byte_from, memchr_find};
use crate::text::{Span, Text};

verus! {

/// Byte values of the characters that the rules read.
pub const PERCENT: u8 = 37;

pub const SLASH: u8 = 47;

pub const STAR: u8 = 42;

pub const NEWLINE: u8 = 10;

pub const QUOTE: u8 = 34;


/// Start characters for the two comment forms and for strings.
///
/// The start characters are byte values and are matched as bytes; with the
/// default ASCII sets this equals character matching, and only then do the
/// emitted ranges keep their endpoints on character boundaries (see the
/// boundary law). The continuation rules themselves are fixed.
pub struct Config {
    /// Bytes that may begin a comment (`%` line, `/*` nested block).
    pub comment_start_chars: Vec<u8>,
    /// Bytes that may begin a string; the same byte closes it.
    pub string_start_chars: Vec<u8>,
}

/// The default configuration: comments start at `%` or `/`, strings at `"`.
pub fn basic_config() -> (c: Config)
    ensures
        c.comment_start_chars@ == seq![PERCENT, SLASH],
        c.string_start_chars@ == seq![QUOTE],
{
    let c = Config { comment_start_chars: vec![PERCENT, SLASH], string_start_chars: vec![QUOTE] };
    proof {
        assert(c.comment_start_chars@ =~= seq![PERCENT, SLASH]);
        assert(c.string_start_chars@ =~= seq![QUOTE]);
    }
    c
}

/// Byte `b` may begin a classified region.
pub open spec fn is_start_byte(cset: Seq<u8>, sset: Seq<u8>, b: u8) -> bool {
    cset.contains(b) || sset.contains(b)
}

/// First position at or after `pos` holding a start byte.
pub open spec fn next_start(s: Seq<u8>, cset: Seq<u8>, sset: Seq<u8>, pos: int) -> Option<int>
    decreases s.len() - pos when 0 <= pos <= s.len()
{
    if pos >= s.len() {
        None
    } else if is_start_byte(cset, sset, s[pos]) {
        Some(pos)
    } else {
        next_start(s, cset, sset, pos + 1)
    }
}

pub proof fn lemma_next_start(s: Seq<u8>, cset: Seq<u8>, sset: Seq<u8>, pos: int)
    requires
        0 <= pos <= s.len(),
    ensures
        next_start(s, cset, sset, pos) matches Some(i) ==> {
            &&& pos <= i < s.len()
            &&& is_start_byte(cset, sset, s[i])
            &&& forall|j: int| pos <= j < i ==> !is_start_byte(cset, sset, s[j])
        },
        next_start(s, cset, sset, pos) is None ==> forall|j: int|
            pos <= j < s.len() ==> !is_start_byte(cset, sset, s[j]),
    decreases s.len() - pos,
{
    if pos < s.len() && !is_start_byte(cset, sset, s[pos]) {
        lemma_next_start(s, cset, sset, pos + 1);
    }
}

/// Length of the line comment that starts at `i`: through, but not
/// including, the next newline, or to the end of the text.
pub open spec fn line_comment_len(s: Seq<u8>, i: int) -> int {
    match find_byte_from(s, NEWLINE, i) {
        Some(j) => j - i,
        None => s.len() - i,
    }
}

/// Position just past the `*/` that balances a nested comment opened before
/// `i` at depth `depth`, or `None` when the text ends first. An opener and a
/// closer are two bytes; overlapping matches are skipped by the jumps.
pub open spec fn nested_end(s: Seq<u8>, i: int, depth: int) -> Option<int>
    decreases s.len() - i when 0 <= i <= s.len()
{
    if i + 2 > s.len() {
        None
    } else if s[i] == SLASH && s[i + 1] == STAR {
        nested_end(s, i + 2, depth + 1)
    } else if s[i] == STAR && s[i + 1] == SLASH {
        if depth <= 1 {
            Some(i + 2)
        } else {
            nested_end(s, i + 2, depth - 1)
        }
    } else {
        nested_end(s, i + 1, depth)
    }
}

pub proof fn lemma_nested_end(s: Seq<u8>, i: int, depth: int)
    requires
        0 <= i <= s.len(),
    ensures
        nested_end(s, i, depth) matches Some(e) ==> {
            &&& i + 2 <= e <= s.len()
            &&& s[e - 2] == STAR
            &&& s[e - 1] == SLASH
        },
    decreases s.len() - i,
{
    if i + 2 > s.len() {
    } else if s[i] == SLASH && s[i + 1] == STAR {
        lemma_nested_end(s, i + 2, depth + 1);
    } else if s[i] == STAR && s[i + 1] == SLASH {
        if depth > 1 {
            lemma_nested_end(s, i + 2, depth - 1);
        }
    } else {
        lemma_nested_end(s, i + 1, depth);
    }
}

/// What a comment rule consumes at start byte position `i`: `Ok` with the
/// byte length of a comment, `Err` with the length of an error range for an
/// unterminated nested comment, `None` when no comment starts here.
pub open spec fn parse_comment_spec(s: Seq<u8>, i: int) -> Option<Result<int, int>>
    recommends
        0 <= i < s.len(),
{
    if s[i] == PERCENT {
        Some(Ok(line_comment_len(s, i)))
    } else if s[i] == SLASH {
        if i + 1 < s.len() && s[i + 1] == STAR {
            match nested_end(s, i + 2, 1) {
                Some(e) => Some(Ok(e - i)),
                None => Some(Err(s.len() - i)),
            }
        } else {
            None
        }
    } else {
        None
    }
}

/// What the string rule consumes at start byte position `i`: `Ok` through
/// the next occurrence of the start byte, inclusive, `Err` to the end of
/// the text when it never recurs.
pub open spec fn parse_string_spec(s: Seq<u8>, i: int) -> Option<Result<int, int>>
    recommends
        0 <= i < s.len(),
{
    match find_byte_from(s, s[i], i + 1) {
        Some(j) => Some(Ok(j + 1 - i)),
        None => Some(Err(s.len() - i)),
    }
}

pub proof fn lemma_parse_comment_bounds(s: Seq<u8>, i: int)
    requires
        0 <= i < s.len(),
    ensures
        parse_comment_spec(s, i) matches Some(pr) ==> {
            &&& pr matches Ok(n) ==> 1 <= n && i + n <= s.len()
            &&& pr matches Err(n) ==> n == s.len() - i && n >= 1
        },
{
    if s[i] == PERCENT {
        lemma_find_byte_from(s, NEWLINE, i);
    } else if s[i] == SLASH && i + 1 < s.len() && s[i + 1] == STAR {
        lemma_nested_end(s, i + 2, 1);
    }
}

pub proof fn lemma_parse_string_bounds(s: Seq<u8>, i: int)
    requires
        0 <= i < s.len(),
    ensures
        parse_string_spec(s, i) matches Some(pr) ==> {
            &&& pr matches Ok(n) ==> 2 <= n && i + n <= s.len()
            &&& pr matches Err(n) ==> n == s.len() - i && n >= 1
        },
{
    lemma_find_byte_from(s, s[i], i + 1);
}

/// The comment, string and error ranges that the segmenter emits from
/// position `pos` onward. At each start byte the comment rule is consulted
/// first, then the string rule; a byte claimed by neither is stepped over.
pub open spec fn seg_from(s: Seq<u8>, cset: Seq<u8>, sset: Seq<u8>, pos: int) -> (
    Seq<Span>,
    Seq<Span>,
    Seq<Span>,
)
    decreases s.len() - pos when 0 <= pos <= s.len() <= usize::MAX via seg_from_dec
{
    match next_start(s, cset, sset, pos) {
        None => (Seq::<Span>::empty(), Seq::<Span>::empty(), Seq::<Span>::empty()),
        Some(i) => {
            let pc = if cset.contains(s[i]) {
                parse_comment_spec(s, i)
            } else {
                None
            };
            let ps = if pc is None && sset.contains(s[i]) {
                parse_string_spec(s, i)
            } else {
                None
            };
            match (pc, ps) {
                (Some(Ok(n)), _) => {
                    let r = seg_from(s, cset, sset, i + n);
                    let sp = Span { start: i as usize, end: (i + n) as usize };
                    (seq![sp] + r.0, r.1, r.2)
                },
                (Some(Err(n)), _) => {
                    let r = seg_from(s, cset, sset, i + n);
                    let sp = Span { start: i as usize, end: (i + n) as usize };
                    (r.0, r.1, seq![sp] + r.2)
                },
                (None, Some(Ok(n))) => {
                    let r = seg_from(s, cset, sset, i + n);
                    let sp = Span { start: i as usize, end: (i + n) as usize };
                    (r.0, seq![sp] + r.1, r.2)
                },
                (None, Some(Err(n))) => {
                    let r = seg_from(s, cset, sset, i + n);
                    let sp = Span { start: i as usize, end: (i + n) as usize };
                    (r.0, r.1, seq![sp] + r.2)
                },
                (None, None) => seg_from(s, cset, sset, i + 1),
            }
        },
    }
}

#[via_fn]
proof fn seg_from_dec(s: Seq<u8>, cset: Seq<u8>, sset: Seq<u8>, pos: int) {
    lemma_next_start(s, cset, sset, pos);
    match next_start(s, cset, sset, pos) {
        None => {},
        Some(i) => {
            lemma_parse_comment_bounds(s, i);
            lemma_parse_string_bounds(s, i);
        },
    }
}

/// Every span of every list starts at or after `pos`.
pub open spec fn spans_from(l: Seq<Span>, pos: int) -> bool {
    forall|k: int| 0 <= k < l.len() ==> pos <= (#[trigger] l[k]).start
}

/// The segmenter's output lists are sorted, non-empty, in bounds, and
/// pairwise disjoint, within each list and across the lists.
pub proof fn lemma_seg_wf(s: Seq<u8>, cset: Seq<u8>, sset: Seq<u8>, pos: int)
    requires
        0 <= pos <= s.len() <= usize::MAX,
    ensures
        ({
            let r = seg_from(s, cset, sset, pos);
            &&& spans_wf(r.0, s.len() as int)
            &&& spans_wf(r.1, s.len() as int)
            &&& spans_wf(r.2, s.len() as int)
            &&& spans_disjoint(r.0, r.1)
            &&& spans_disjoint(r.0, r.2)
            &&& spans_disjoint(r.1, r.2)
            &&& spans_from(r.0, pos)
            &&& spans_from(r.1, pos)
            &&& spans_from(r.2, pos)
        }),
    decreases s.len() - pos,
{
    lemma_next_start(s, cset, sset, pos);
    match next_start(s, cset, sset, pos) {
        None => {},
        Some(i) => {
            lemma_parse_comment_bounds(s, i);
            lemma_parse_string_bounds(s, i);
            let pc = if cset.contains(s[i]) {
                parse_comment_spec(s, i)
            } else {
                None
            };
            let ps = if pc is None && sset.contains(s[i]) {
                parse_string_spec(s, i)
            } else {
                None
            };
            match (pc, ps) {
                (Some(Ok(n)), _) => {
                    lemma_seg_wf(s, cset, sset, i + n);
                },
                (Some(Err(n)), _) => {
                    lemma_seg_wf(s, cset, sset, i + n);
                },
                (None, Some(Ok(n))) => {
                    lemma_seg_wf(s, cset, sset, i + n);
                },
                (None, Some(Err(n))) => {
                    lemma_seg_wf(s, cset, sset, i + n);
                },
                (None, None) => {
                    lemma_seg_wf(s, cset, sset, i + 1);
                },
            }
        },
    }
}

/// Scan for the next start byte at or after `pos`.
fn next_start_exec(text: &[u8], config: &Config, pos: usize) -> (r: Option<usize>)
    requires
        pos <= text@.len(),
    ensures
        r is Some <==> next_start(
            text@,
            config.comment_start_chars@,
            config.string_start_chars@,
            pos as int,
        ) is Some,
        r matches Some(i) ==> Some(i as int) == next_start(
            text@,
            config.comment_start_chars@,
            config.string_start_chars@,
            pos as int,
        ),
{
    let ghost cset = config.comment_start_chars@;
    let ghost sset = config.string_start_chars@;
    let mut i: usize = pos;
    while i < text.len()
        invariant
            pos <= i <= text@.len(),
            next_start(text@, cset, sset, pos as int) == next_start(text@, cset, sset, i as int),
            cset == config.comment_start_chars@,
            sset == config.string_start_chars@,
        decreases text@.len() - i,
    {
        let b = text[i];
        if crate::chunks::byte_in_set(&config.comment_start_chars, b) || crate::chunks::byte_in_set(&config.string_start_chars, b) {
            return Some(i);
        }
        i = i + 1;
    }
    None
}

/// `find_byte_from` over a suffix, re-based to the full sequence.
pub proof fn lemma_find_byte_suffix(s: Seq<u8>, needle: u8, d: int, i: int)
    requires
        0 <= d <= s.len(),
        0 <= i <= s.len() - d,
    ensures
        ({
            let sub = s.subrange(d, s.len() as int);
            match find_byte_from(sub, needle, i) {
                Some(j) => find_byte_from(s, needle, d + i) == Some(d + j),
                None => find_byte_from(s, needle, d + i) is None,
            }
        }),
    decreases s.len() - d - i,
{
    let sub = s.subrange(d, s.len() as int);
    if i < sub.len() {
        assert(sub[i] == s[d + i]);
        if sub[i] != needle {
            lemma_find_byte_suffix(s, needle, d, i + 1);
        }
    }
}

/// Scan that balances `/*` and `*/` pairs, skipping overlapping matches.
fn nested_end_exec(text: &[u8], start: usize) -> (r: Option<usize>)
    requires
        start <= text@.len(),
    ensures
        r is Some <==> nested_end(text@, start as int, 1) is Some,
        r matches Some(e) ==> Some(e as int) == nested_end(text@, start as int, 1),
{
    let mut cur: usize = start;
    let mut depth: usize = 1;
    loop
        invariant
            start <= cur <= text@.len(),
            depth >= 1,
            2 * depth <= cur - start + 2,
            nested_end(text@, start as int, 1) == nested_end(text@, cur as int, depth as int),
        decreases text@.len() - cur,
    {
        if text.len() - cur < 2 {
            return None;
        }
        let b0 = text[cur];
        let b1 = text[cur + 1];
        if b0 == SLASH && b1 == STAR {
            cur = cur + 2;
            depth = depth + 1;
        } else if b0 == STAR && b1 == SLASH {
            if depth <= 1 {
                return Some(cur + 2);
            }
            cur = cur + 2;
            depth = depth - 1;
        } else {
            cur = cur + 1;
        }
    }
}

/// Apply the comment rule at a start byte.
fn parse_comment_at(text: &[u8], i: usize) -> (r: Option<Result<usize, usize>>)
    requires
        i < text@.len(),
    ensures
        r is Some <==> parse_comment_spec(text@, i as int) is Some,
        r matches Some(Ok(n)) ==> parse_comment_spec(text@, i as int) == Some(
            Ok::<int, int>(n as int),
        ),
        r matches Some(Err(n)) ==> parse_comment_spec(text@, i as int) == Some(
            Err::<int, int>(n as int),
        ),
{
    let b = text[i];
    if b == PERCENT {
        let tail = vstd::slice::slice_subrange(text, i, text.len());
        let r = memchr_find(NEWLINE, tail);
        proof {
            lemma_find_byte_suffix(text@, NEWLINE, i as int, 0);
        }
        match r {
            Some(j) => Some(Ok(j)),
            None => Some(Ok(text.len() - i)),
        }
    } else if b == SLASH {
        if text.len() - i > 1 && text[i + 1] == STAR {
            match nested_end_exec(text, i + 2) {
                Some(e) => {
                    proof {
                        lemma_nested_end(text@, i + 2, 1);
                    }
                    Some(Ok(e - i))
                },
                None => Some(Err(text.len() - i)),
            }
        } else {
            None
        }
    } else {
        None
    }
}

/// Apply the string rule at a start byte.
fn parse_string_at(text: &[u8], i: usize) -> (r: Option<Result<usize, usize>>)
    requires
        i < text@.len(),
    ensures
        r is Some,
        r matches Some(Ok(n)) ==> parse_string_spec(text@, i as int) == Some(
            Ok::<int, int>(n as int),
        ),
        r matches Some(Err(n)) ==> parse_string_spec(text@, i as int) == Some(
            Err::<int, int>(n as int),
        ),
{
    let q = text[i];
    let tail = vstd::slice::slice_subrange(text, i + 1, text.len());
    let r = memchr_find(q, tail);
    proof {
        lemma_find_byte_suffix(text@, q, i as int + 1, 0);
    }
    match r {
        Some(j) => {
            proof {
                lemma_find_byte_from(text@, q, i as int + 1);
            }
            Some(Ok(i + 1 + j + 1 - i))
        },
        None => Some(Err(text.len() - i)),
    }
}

/// Segment a whole text under the given configuration.
///
/// The returned document owns the text; its three lists are exactly what
/// the walk from position zero emits, and satisfy the document invariant.
pub fn source_map(text: Text, config: &Config) -> (c: Chunk)
    ensures
        c@ == text@,
        (c.comments@, c.strings@, c.errors@) == seg_from(
            text@,
            config.comment_start_chars@,
            config.string_start_chars@,
            0,
        ),
        c.wf(),
{
    let ghost s = text@;
    let ghost cset = config.comment_start_chars@;
    let ghost sset = config.string_start_chars@;
    let mut comments: Vec<Span> = Vec::new();
    let mut strings: Vec<Span> = Vec::new();
    let mut errors: Vec<Span> = Vec::new();
    let mut position: usize = 0;
    let bytes = text.as_bytes();
    let text_len = bytes.len();
    loop
        invariant
            0 <= position <= s.len() <= usize::MAX,
            s == text@,
            bytes@ == s,
            cset == config.comment_start_chars@,
            sset == config.string_start_chars@,
            seg_from(s, cset, sset, 0) == {
                let r = seg_from(s, cset, sset, position as int);
                (comments@ + r.0, strings@ + r.1, errors@ + r.2)
            },
        ensures
            0 <= position <= s.len() <= usize::MAX,
            next_start(s, cset, sset, position as int) is None,
            seg_from(s, cset, sset, 0) == {
                let r = seg_from(s, cset, sset, position as int);
                (comments@ + r.0, strings@ + r.1, errors@ + r.2)
            },
        decreases s.len() - position,
    {
        match next_start_exec(bytes, config, position) {
            None => {
                break;
            },
            Some(i) => {
                proof {
                    lemma_next_start(s, cset, sset, position as int);
                    lemma_parse_comment_bounds(s, i as int);
                    lemma_parse_string_bounds(s, i as int);
                }
                let pc = if crate::chunks::byte_in_set(&config.comment_start_chars, bytes[i]) {
                    parse_comment_at(bytes, i)
                } else {
                    None
                };
                let ps = if pc.is_none() && crate::chunks::byte_in_set(&config.string_start_chars, bytes[i]) {
                    parse_string_at(bytes, i)
                } else {
                    None
                };
                let ghost old_position = position as int;
                let ghost old_comments = comments@;
                let ghost old_strings = strings@;
                let ghost old_errors = errors@;
                match (pc, ps) {
                    (Some(Ok(n)), _) => {
                        comments.push(Span { start: i, end: i + n });
                        position = i + n;
                    },
                    (Some(Err(n)), _) => {
                        errors.push(Span { start: i, end: i + n });
                        position = i + n;
                    },
                    (None, Some(Ok(n))) => {
                        strings.push(Span { start: i, end: i + n });
                        position = i + n;
                    },
                    (None, Some(Err(n))) => {
                        errors.push(Span { start: i, end: i + n });
                        position = i + n;
                    },
                    (None, None) => {
                        position = i + 1;
                    },
                }
                proof {
                    let r_next = seg_from(s, cset, sset, position as int);
                    let r_old = seg_from(s, cset, sset, old_position);
                    // one unfolding of the walk at the event position `i`
                    assert(comments@ + r_next.0 =~= old_comments + r_old.0);
                    assert(strings@ + r_next.1 =~= old_strings + r_old.1);
                    assert(errors@ + r_next.2 =~= old_errors + r_old.2);
                }
            },
        }
    }
    proof {
        lemma_next_start(s, cset, sset, position as int);
        let r = seg_from(s, cset, sset, position as int);
        assert(comments@ + r.0 =~= comments@);
        assert(strings@ + r.1 =~= strings@);
        assert(errors@ + r.2 =~= errors@);
        lemma_seg_wf(s, cset, sset, 0);
    }
    Chunk { text, comments, strings, errors }
}

/// Segment a text under the default configuration.
pub fn basic_source_map(text: Text) -> (c: Chunk)
    ensures
        c@ == text@,
        (c.comments@, c.strings@, c.errors@) == seg_from(text@, seq![PERCENT, SLASH], seq![QUOTE], 0),
        c.wf(),
{
    let config = basic_config();
    source_map(text, &config)
}

} // verus!
