//! Construction and checking of portmantouts: single byte strings that
//! contain every word of a dictionary as a contiguous substring and parse
//! as a chain of overlapping words.

use vstd::prelude::*;

pub mod anneal;
pub mod generate;
pub mod normalize;
pub mod rng;
pub mod search;
pub mod verify;
pub mod trie;

verus! {

/// `needle` occurs in `haystack` starting exactly at `start`.
pub open spec fn matches_at(haystack: Seq<u8>, needle: Seq<u8>, start: int) -> bool {
    &&& 0 <= start
    &&& start + needle.len() <= haystack.len()
    &&& haystack.subrange(start, start + needle.len() as int) == needle
}

/// `needle` occurs somewhere in `haystack` as a contiguous substring.
pub open spec fn is_substring(haystack: Seq<u8>, needle: Seq<u8>) -> bool {
    exists|i: int| matches_at(haystack, needle, i)
}

/// Every byte string contains itself. (law)
pub proof fn lemma_substring_refl(a: Seq<u8>)
    ensures
        is_substring(a, a),
{
    assert(a.subrange(0, a.len() as int) =~= a);
    assert(matches_at(a, a, 0));
}

/// A substring of a substring is a substring: containment is transitive. (law)
pub proof fn lemma_substring_trans(a: Seq<u8>, b: Seq<u8>, c: Seq<u8>)
    requires
        is_substring(a, b),
        is_substring(b, c),
    ensures
        is_substring(a, c),
{
    let i = choose|i: int| matches_at(a, b, i);
    let j = choose|j: int| matches_at(b, c, j);
    assert(a.subrange(i + j, i + j + c.len() as int) =~= c) by {
        assert forall|t: int| 0 <= t < c.len() implies a[i + j + t] == c[t] by {
            assert(b.subrange(j, j + c.len() as int)[t] == c[t]);
            assert(a.subrange(i, i + b.len() as int)[j + t] == b[j + t]);
        }
    }
    assert(matches_at(a, c, i + j));
}

/// Naive contiguous-substring scan: true iff `needle` occurs in `haystack`.
/// An empty needle is found at position 0.
pub fn contains_subsequence(haystack: &[u8], needle: &[u8]) -> (r: bool)
    ensures
        r == is_substring(haystack@, needle@),
{
    if needle.len() > haystack.len() {
        assert(forall|i: int| !matches_at(haystack@, needle@, i));
        return false;
    }
    let bound: usize = haystack.len() - needle.len();
    let mut start: usize = 0;
    while start <= bound
        invariant
            needle.len() <= haystack.len(),
            bound == haystack.len() - needle.len(),
            start <= bound + 1,
            forall|i: int| 0 <= i < start ==> !matches_at(haystack@, needle@, i),
        decreases bound + 1 - start,
    {
        let mut idx: usize = 0;
        while idx < needle.len() && needle[idx] == haystack[start + idx]
            invariant
                idx <= needle.len(),
                start + needle.len() <= haystack.len(),
                forall|j: int| 0 <= j < idx ==> haystack@[start + j] == needle@[j],
            decreases needle.len() - idx,
        {
            idx += 1;
        }
        if idx == needle.len() {
            assert(haystack@.subrange(start as int, start + needle@.len() as int) =~= needle@);
            assert(matches_at(haystack@, needle@, start as int));
            return true;
        }
        proof {
            assert(haystack@[start + idx] != needle@[idx as int]);
            if matches_at(haystack@, needle@, start as int) {
                assert(haystack@.subrange(start as int, start + needle@.len() as int)[idx as int]
                    == needle@[idx as int]);
            }
        }
        start += 1;
    }
    assert(forall|i: int| !matches_at(haystack@, needle@, i));
    false
}

} // verus!
