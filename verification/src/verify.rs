//! Checks on a finished portmantout: that it parses as a chain of
//! adjacent, overlapping dictionary words covering every byte, and that it
//! contains every word of the reduced wordlist.

use vstd::prelude::*;
use crate::{contains_subsequence, is_substring, matches_at};
use crate::search::{clone_bytes, copy_range};
use crate::trie::{ByteTrie, trie_contents, trie_get, trie_first_descendant};

verus! {

pub use crate::search::BytesTrieKey;

/// The byte range `seg` of `pt` spells a dictionary word.
pub open spec fn cover_link_ok(pt: Seq<u8>, words: Map<Seq<u8>, usize>, seg: (int, int)) -> bool {
    &&& 0 <= seg.0 < seg.1 <= pt.len()
    &&& words.contains_key(pt.subrange(seg.0, seg.1))
}

/// `chain` parses `pt` as dictionary words: the first starts at byte 0,
/// the last ends at the final byte, and each next word starts strictly
/// before its predecessor ends — the words overlap by at least one byte.
pub open spec fn is_cover(pt: Seq<u8>, words: Map<Seq<u8>, usize>, chain: Seq<(int, int)>) -> bool {
    &&& chain.len() >= 1
    &&& chain[0].0 == 0
    &&& chain[chain.len() - 1].1 == pt.len()
    &&& forall|i: int| 0 <= i < chain.len() ==> cover_link_ok(pt, words, #[trigger] chain[i])
    &&& forall|i: int| 0 < i < chain.len() ==> (#[trigger] chain[i]).0 < chain[i - 1].1
}

/// Some parse of `pt` into adjacent overlapping dictionary words exists.
pub open spec fn cover_exists(pt: Seq<u8>, words: Map<Seq<u8>, usize>) -> bool {
    exists|chain: Seq<(int, int)>| is_cover(pt, words, chain)
}

/// No dictionary word that starts before `i` reaches past `i`: the
/// covered prefix can never grow beyond that point.
pub open spec fn blocked_at(pt: Seq<u8>, words: Map<Seq<u8>, usize>, i: int) -> bool {
    forall|st: int, w: Seq<u8>|
        0 <= st < i && words.contains_key(w) && #[trigger] matches_at(pt, w, st) ==> st + w.len()
            <= i
}

/// Among the links of a chain whose end passes `i`, there is a first one.
proof fn lemma_first_exceed(chain: Seq<(int, int)>, i: int, t: int)
    requires
        0 <= t < chain.len(),
        chain[t].1 > i,
    ensures
        exists|u: int|
            0 <= u <= t && (#[trigger] chain[u]).1 > i && (forall|v: int|
                0 <= v < u ==> (#[trigger] chain[v]).1 <= i),
    decreases t,
{
    if exists|v: int| 0 <= v < t && (#[trigger] chain[v]).1 > i {
        let v = choose|v: int| 0 <= v < t && (#[trigger] chain[v]).1 > i;
        lemma_first_exceed(chain, i, v);
    } else {
        assert(chain[t].1 > i && (forall|v: int| 0 <= v < t ==> (#[trigger] chain[v]).1 <= i));
    }
}

/// When no word starting before `i` reaches past it, no chain of
/// overlapping dictionary words can cover the whole string.
proof fn lemma_blocked_no_cover(pt: Seq<u8>, words: Map<Seq<u8>, usize>, i: int)
    requires
        1 <= i < pt.len(),
        blocked_at(pt, words, i),
    ensures
        !cover_exists(pt, words),
{
    if cover_exists(pt, words) {
        let chain = choose|chain: Seq<(int, int)>| is_cover(pt, words, chain);
        assert(chain[chain.len() - 1].1 > i);
        lemma_first_exceed(chain, i, chain.len() - 1);
        let u = choose|u: int|
            0 <= u < chain.len() && (#[trigger] chain[u]).1 > i && (forall|v: int|
                0 <= v < u ==> (#[trigger] chain[v]).1 <= i);
        let st = chain[u].0;
        let w = pt.subrange(chain[u].0, chain[u].1);
        assert(cover_link_ok(pt, words, chain[u]));
        assert(matches_at(pt, w, st));
        if u == 0 {
            assert(st == 0);
        } else {
            assert(chain[u].0 < chain[u - 1].1);
            assert(chain[u - 1].1 <= i);
        }
        assert(st < i);
        assert(st + w.len() <= i);
        assert(chain[u].1 <= i);
        assert(false);
    }
}

/// Greedy longest-match cover check: scan for dictionary words that push
/// the covered prefix forward, a byte position at a time. `Ok` guarantees
/// that a cover exists; an error carries the first index that no word
/// can reach past, and then no cover exists at all.
#[verifier::rlimit(100)]
#[verifier::spinoff_prover]
pub fn verify_cover(portmantout: &Vec<u8>, words: &ByteTrie) -> (r: Result<(), usize>)
    ensures
        r is Ok && portmantout@.len() >= 2 ==> cover_exists(portmantout@, trie_contents(*words)),
        portmantout@.len() <= 1 ==> r is Ok,
        r is Err ==> ({
            let i = r->Err_0 as int;
            &&& 1 <= i < portmantout@.len()
            &&& blocked_at(portmantout@, trie_contents(*words), i)
            &&& (forall|j: int|
                1 <= j < i ==> !(#[trigger] blocked_at(portmantout@, trie_contents(*words), j)))
            &&& !cover_exists(portmantout@, trie_contents(*words))
        }),
{
    let ghost pt = portmantout@;
    let ghost dict = trie_contents(*words);
    let len = portmantout.len();
    let mut verified_thru: usize = 0;
    let mut word_start_idx: usize = 0;
    let ghost mut chain: Seq<(int, int)> = Seq::empty();
    while verified_thru + 1 < len
        invariant
            pt == portmantout@,
            dict == trie_contents(*words),
            len == pt.len(),
            word_start_idx <= verified_thru + 1,
            verified_thru + 1 <= len || len == 0,
            chain.len() == 0 ==> verified_thru == 0,
            chain.len() >= 1 ==> {
                &&& chain[0].0 == 0
                &&& forall|i: int| 0 <= i < chain.len() ==> cover_link_ok(pt, dict, #[trigger] chain[i])
                &&& forall|i: int| 0 < i < chain.len() ==> (#[trigger] chain[i]).0 < chain[i - 1].1
                &&& chain[chain.len() - 1].1 >= verified_thru + 1
                &&& chain[chain.len() - 1].1 <= len
            },
            forall|st: int, w: Seq<u8>|
                0 <= st < word_start_idx && dict.contains_key(w) && #[trigger] matches_at(
                    pt,
                    w,
                    st,
                ) ==> st + w.len() <= verified_thru + 1,
            forall|j: int| 1 <= j <= verified_thru ==> !(#[trigger] blocked_at(pt, dict, j)),
        decreases len - word_start_idx,
    {
        if word_start_idx > verified_thru {
            proof {
                assert(word_start_idx == verified_thru + 1);
                assert(blocked_at(pt, dict, verified_thru + 1));
                lemma_blocked_no_cover(pt, dict, verified_thru + 1);
            }
            return Err(verified_thru + 1);
        }
        // seed the candidate with the bytes through the first uncovered one
        let mut word_end_idx = verified_thru + 2;
        let mut word = copy_range(portmantout, word_start_idx, word_end_idx);
        let mut has_good = false;
        let mut good_len: usize = 0;
        match trie_first_descendant(words, &word) {
            None => {
                proof {
                    // no word at this start reaches the uncovered byte:
                    // a longer one would extend the seed prefix
                    assert forall|w: Seq<u8>|
                        dict.contains_key(w) && #[trigger] matches_at(
                            pt,
                            w,
                            word_start_idx as int,
                        ) implies word_start_idx + w.len() <= verified_thru + 1 by {
                        if word_start_idx + w.len() > verified_thru + 1 {
                            assert(w.subrange(0, word_end_idx - word_start_idx) =~= pt.subrange(
                                word_start_idx as int,
                                word_end_idx as int,
                            ));
                            assert(word@.is_prefix_of(w));
                        }
                    }
                }
                word_start_idx += 1;
                continue;
            },
            Some(_) => {},
        }
        if trie_get(words, &word).is_some() {
            has_good = true;
            good_len = word_end_idx - word_start_idx;
        }
        proof {
            // words of exactly the seed length are settled by the lookup
            assert forall|w: Seq<u8>|
                dict.contains_key(w) && #[trigger] matches_at(pt, w, word_start_idx as int)
                    && verified_thru + 2 - word_start_idx <= w.len() <= word_end_idx
                    - word_start_idx implies has_good && w.len() <= good_len by {
                assert(w =~= pt.subrange(word_start_idx as int, word_start_idx + w.len()));
                assert(w =~= word@);
            }
        }
        let mut capped = false;
        while word_end_idx < len && !capped
            invariant
                pt == portmantout@,
                dict == trie_contents(*words),
                len == pt.len(),
                word_start_idx <= verified_thru + 1,
                verified_thru + 2 <= word_end_idx <= len,
                word@ == pt.subrange(word_start_idx as int, word_end_idx as int),
                has_good ==> {
                    &&& good_len >= verified_thru + 2 - word_start_idx
                    &&& word_start_idx + good_len <= len
                    &&& dict.contains_key(
                        pt.subrange(
                            word_start_idx as int,
                            word_start_idx + good_len,
                        ),
                    )
                },
                forall|w: Seq<u8>|
                    dict.contains_key(w) && #[trigger] matches_at(pt, w, word_start_idx as int)
                        && verified_thru + 2 - word_start_idx <= w.len() <= word_end_idx
                        - word_start_idx ==> has_good && w.len() <= good_len,
                capped ==> forall|w: Seq<u8>|
                    dict.contains_key(w) && #[trigger] matches_at(pt, w, word_start_idx as int)
                        ==> w.len() < word_end_idx - word_start_idx,
            decreases len - word_end_idx,
        {
            word.push(portmantout[word_end_idx]);
            word_end_idx += 1;
            proof {
                assert(word@ =~= pt.subrange(word_start_idx as int, word_end_idx as int));
            }
            match trie_first_descendant(words, &word) {
                Some(_) => {
                    if trie_get(words, &word).is_some() {
                        has_good = true;
                        good_len = word_end_idx - word_start_idx;
                    }
                    proof {
                        assert forall|w: Seq<u8>|
                            dict.contains_key(w) && #[trigger] matches_at(
                                pt,
                                w,
                                word_start_idx as int,
                            ) && verified_thru + 2 - word_start_idx <= w.len() <= word_end_idx
                            - word_start_idx implies has_good && w.len() <= good_len by {
                            if w.len() == word_end_idx - word_start_idx {
                                assert(w =~= pt.subrange(
                                    word_start_idx as int,
                                    word_start_idx + w.len(),
                                ));
                                assert(w =~= word@);
                            }
                        }
                    }
                },
                None => {
                    proof {
                        // nothing extends this prefix, so no word at the
                        // start is this long or longer
                        assert forall|w: Seq<u8>|
                            dict.contains_key(w) && #[trigger] matches_at(
                                pt,
                                w,
                                word_start_idx as int,
                            ) implies w.len() < word_end_idx - word_start_idx by {
                            if w.len() >= word_end_idx - word_start_idx {
                                assert(w.subrange(0, word_end_idx - word_start_idx)
                                    =~= pt.subrange(
                                    word_start_idx as int,
                                    word_end_idx as int,
                                ));
                                assert(word@.is_prefix_of(w));
                            }
                        }
                    }
                    capped = true;
                },
            }
        }
        proof {
            // every word at this start longer than the covered prefix is
            // now accounted for
            assert forall|w: Seq<u8>|
                dict.contains_key(w) && #[trigger] matches_at(pt, w, word_start_idx as int)
                    && w.len() >= verified_thru + 2 - word_start_idx implies has_good && w.len()
                <= good_len by {
                assert(word_start_idx + w.len() <= len);
            }
        }
        if word_end_idx == len && word.len() == len - word_start_idx {
            // the candidate runs to the end of the portmantout
            if trie_get(words, &word).is_some() {
                proof {
                    let seg = (word_start_idx as int, len as int);
                    assert(cover_link_ok(pt, dict, seg));
                    if chain.len() == 0 {
                        chain = seq![seg];
                    } else {
                        chain = chain.push(seg);
                    }
                    assert(chain[chain.len() - 1].1 == len);
                    assert(is_cover(pt, dict, chain));
                }
                return Ok(());
            }
        }
        if has_good {
            proof {
                let seg = (word_start_idx as int, word_start_idx + good_len as int);
                assert(cover_link_ok(pt, dict, seg));
                if chain.len() == 0 {
                    chain = seq![seg];
                } else if chain[chain.len() - 1].1 < word_start_idx + good_len {
                    chain = chain.push(seg);
                }
                // the new frontier is witnessed by the word just found
                let wgood = pt.subrange(word_start_idx as int, word_start_idx + good_len);
                assert(matches_at(pt, wgood, word_start_idx as int));
                assert forall|j: int|
                    1 <= j <= word_start_idx + good_len - 1 implies !(#[trigger] blocked_at(
                    pt,
                    dict,
                    j,
                )) by {
                    if j > verified_thru {
                        if blocked_at(pt, dict, j) {
                            assert(word_start_idx + wgood.len() <= j);
                        }
                    }
                }
            }
            verified_thru = word_start_idx + good_len - 1;
        }
        word_start_idx += 1;
    }
    proof {
        if len >= 2 {
            assert(chain.len() >= 1);
            assert(chain[chain.len() - 1].1 == len);
            assert(is_cover(pt, dict, chain));
        }
    }
    Ok(())
}

/// Check that every word of the list occurs in the portmantout as a
/// contiguous substring; the first missing word, in list order, is
/// reported.
pub fn verify_contains_all(portmantout: &Vec<u8>, word_list: &Vec<Vec<u8>>) -> (r: Result<
    (),
    Vec<u8>,
>)
    ensures
        match r {
            Ok(()) => forall|i: int|
                0 <= i < word_list@.len() ==> is_substring(portmantout@, word_list@[i]@),
            Err(w) => exists|i: int|
                {
                    &&& 0 <= i < word_list@.len()
                    &&& #[trigger] word_list@[i]@ == w@
                    &&& !is_substring(portmantout@, w@)
                    &&& forall|j: int| 0 <= j < i ==> is_substring(portmantout@, word_list@[j]@)
                },
        },
{
    let mut i: usize = 0;
    while i < word_list.len()
        invariant
            i <= word_list@.len(),
            forall|j: int| 0 <= j < i ==> is_substring(portmantout@, word_list@[j]@),
        decreases word_list@.len() - i,
    {
        if !contains_subsequence(portmantout.as_slice(), word_list[i].as_slice()) {
            let missing = clone_bytes(&word_list[i]);
            proof {
                assert(word_list@[i as int]@ == missing@ && !is_substring(
                    portmantout@,
                    missing@,
                ));
            }
            return Err(missing);
        }
        i += 1;
    }
    Ok(())
}

} // verus!
