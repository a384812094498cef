//! Byte-search primitives backed by the `memchr` crate.
//!
//! `memchr` locates bytes with vectorised instructions; the functions here
//! state what each search returns so that the scanners built on them can be
//! proved.

use vstd::prelude::*;

verus! {

/// Number of occurrences of `b` in `s`.
pub open spec fn count_of(s: Seq<u8>, b: u8) -> nat
    decreases s.len(),
{
    if s.len() == 0 {
        0
    } else {
        count_of(s.drop_last(), b) + if s.last() == b { 1nat } else { 0nat }
    }
}

/// `memchr::memchr`: the index of the first occurrence of `needle` in
/// `haystack`, or `None` when it does not occur.
#[verifier::external_body]
pub(crate) fn find_byte(needle: u8, haystack: &[u8]) -> (res: Option<usize>)
    ensures
        match res {
            Some(i) => i < haystack@.len() && haystack@[i as int] == needle && forall|j: int|
                0 <= j < i ==> haystack@[j] != needle,
            None => forall|j: int| 0 <= j < haystack@.len() ==> haystack@[j] != needle,
        },
{
    memchr::memchr(needle, haystack)
}

/// `memchr::memchr2`: the index of the first byte of `haystack` equal to
/// `needle1` or `needle2`, or `None` when neither occurs.
#[verifier::external_body]
pub(crate) fn find_either(needle1: u8, needle2: u8, haystack: &[u8]) -> (res: Option<usize>)
    ensures
        match res {
            Some(i) => i < haystack@.len() && (haystack@[i as int] == needle1 || haystack@[i as int]
                == needle2) && forall|j: int|
                0 <= j < i ==> haystack@[j] != needle1 && haystack@[j] != needle2,
            None => forall|j: int|
                0 <= j < haystack@.len() ==> haystack@[j] != needle1 && haystack@[j] != needle2,
        },
{
    memchr::memchr2(needle1, needle2, haystack)
}

/// `memchr::memchr_iter` counted: the number of occurrences of `needle` in
/// `haystack`.
#[verifier::external_body]
pub(crate) fn count_byte(needle: u8, haystack: &[u8]) -> (res: usize)
    ensures
        res == count_of(haystack@, needle),
{
    memchr::memchr_iter(needle, haystack).count()
}

/// Counting over a concatenation adds up.
pub proof fn lemma_count_of_append(a: Seq<u8>, b: Seq<u8>, x: u8)
    ensures
        count_of(a + b, x) == count_of(a, x) + count_of(b, x),
    decreases b.len(),
{
    if b.len() == 0 {
        assert(a + b =~= a);
    } else {
        assert((a + b).drop_last() =~= a + b.drop_last());
        lemma_count_of_append(a, b.drop_last(), x);
    }
}

/// A count never exceeds the length.
pub proof fn lemma_count_of_le_len(s: Seq<u8>, x: u8)
    ensures
        count_of(s, x) <= s.len(),
    decreases s.len(),
{
    if s.len() > 0 {
        lemma_count_of_le_len(s.drop_last(), x);
    }
}

} // verus!
