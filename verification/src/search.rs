//! Byte search, carried out by the `memchr` crate behind an exact contract.

use vstd::prelude::*;

verus! {

/// Index of the first occurrence of `needle` at or after `pos`, if any.
pub open spec fn find_byte_from(s: Seq<u8>, needle: u8, pos: int) -> Option<int>
    decreases s.len() - pos when 0 <= pos <= s.len()
{
    if pos >= s.len() {
        None
    } else if s[pos] == needle {
        Some(pos)
    } else {
        find_byte_from(s, needle, pos + 1)
    }
}

/// `find_byte_from` names exactly the first occurrence.
pub proof fn lemma_find_byte_from(s: Seq<u8>, needle: u8, pos: int)
    requires
        0 <= pos <= s.len(),
    ensures
        find_byte_from(s, needle, pos) matches Some(i) ==> {
            &&& pos <= i < s.len()
            &&& s[i] == needle
            &&& forall|j: int| pos <= j < i ==> s[j] != needle
        },
        find_byte_from(s, needle, pos) is None ==> forall|j: int|
            pos <= j < s.len() ==> s[j] != needle,
    decreases s.len() - pos,
{
    if pos < s.len() && s[pos] != needle {
        lemma_find_byte_from(s, needle, pos + 1);
    }
}

/// Relies on `memchr::memchr`: returns the index of the first occurrence of
/// `needle` in `haystack`, or `None` when the byte does not occur.
#[verifier::external_body]
pub fn memchr_find(needle: u8, haystack: &[u8]) -> (r: Option<usize>)
    ensures
        r is Some <==> find_byte_from(haystack@, needle, 0) is Some,
        r matches Some(i) ==> Some(i as int) == find_byte_from(haystack@, needle, 0),
{
    memchr::memchr(needle, haystack)
}

} // verus!
