//! Byte search, done by the `memchr` crate.
use crate::bytes::{find, find2, lemma_find2_unique};
use vstd::prelude::*;

verus! {

/// `memchr::memchr`: the index of the first byte of `haystack` equal to
/// `needle`, or `None` when no byte of it is.
pub assume_specification[ memchr::memchr ](needle: u8, haystack: &[u8]) -> (r: Option<usize>)
    ensures
        match r {
            Some(i) => i < haystack@.len() && haystack@[i as int] == needle && forall|j: int|
                0 <= j < i ==> haystack@[j] != needle,
            None => forall|j: int| 0 <= j < haystack@.len() ==> haystack@[j] != needle,
        },
;

/// `memchr::memchr2`: the index of the first byte of `haystack` equal to
/// `needle1` or to `needle2`, or `None` when no byte of it is.
pub assume_specification[ memchr::memchr2 ](needle1: u8, needle2: u8, haystack: &[u8]) -> (r:
    Option<usize>)
    ensures
        match r {
            Some(i) => i < haystack@.len() && (haystack@[i as int] == needle1 || haystack@[i as int]
                == needle2) && forall|j: int|
                0 <= j < i ==> haystack@[j] != needle1 && haystack@[j] != needle2,
            None => forall|j: int|
                0 <= j < haystack@.len() ==> haystack@[j] != needle1 && haystack@[j] != needle2,
        },
;

/// Position of the first `needle` in `haystack`.
pub fn first_byte(needle: u8, haystack: &[u8]) -> (r: Option<usize>)
    ensures
        r matches Some(i) ==> i == find(haystack@, needle) && i < haystack@.len(),
        r is None ==> find(haystack@, needle) == haystack@.len(),
{
    let r = memchr::memchr(needle, haystack);
    proof {
        match r {
            Some(i) => lemma_find2_unique(haystack@, needle, needle, i as int),
            None => lemma_find2_unique(haystack@, needle, needle, haystack@.len() as int),
        }
    }
    r
}

/// Position of the first `needle1` or `needle2` in `haystack`.
pub fn first_of_two(needle1: u8, needle2: u8, haystack: &[u8]) -> (r: Option<usize>)
    ensures
        r matches Some(i) ==> i == find2(haystack@, needle1, needle2) && i < haystack@.len(),
        r is None ==> find2(haystack@, needle1, needle2) == haystack@.len(),
{
    let r = memchr::memchr2(needle1, needle2, haystack);
    proof {
        match r {
            Some(i) => lemma_find2_unique(haystack@, needle1, needle2, i as int),
            None => lemma_find2_unique(haystack@, needle1, needle2, haystack@.len() as int),
        }
    }
    r
}

} // verus!
