//! Greedy particle generation: repeatedly merge the pair of words with the
//! largest suffix-prefix overlap, shrinking the wordlist into particles
//! that still contain every original word.

use vstd::prelude::*;
use crate::search::{clone_bytes, copy_range, StateError};
use crate::normalize::bytes_equal;
use crate::{is_substring, matches_at, lemma_substring_refl, lemma_substring_trans};
use crate::trie::{
    ByteTrie, trie_contents, trie_first_descendant, trie_descendant_keys, trie_new, trie_insert,
    trie_remove,
};

verus! {

pub use crate::search::BytesTrieKey;

/// Some entry of `ps` contains `w` as a contiguous substring.
pub open spec fn word_covered(ps: Seq<Vec<u8>>, w: Seq<u8>) -> bool {
    exists|k: int| 0 <= k < ps.len() && is_substring(#[trigger] ps[k]@, w)
}

/// Every word of `ws` survives as a contiguous substring of some entry
/// of `ps`.
pub open spec fn all_words_covered(ws: Seq<Vec<u8>>, ps: Seq<Vec<u8>>) -> bool {
    forall|i: int| 0 <= i < ws.len() ==> #[trigger] word_covered(ps, ws[i]@)
}

/// Some entry of `ps` holds exactly the bytes `w`.
spec fn holds_entry(ps: Seq<Vec<u8>>, w: Seq<u8>) -> bool {
    exists|k3: int| 0 <= k3 < ps.len() && (#[trigger] ps[k3])@ == w
}

/// Greedy overlap-merge of a distinct list of non-empty words into
/// particles. The scan looks at most `upper_bound` trailing bytes of each
/// word for a suffix that begins another word, merges the best such pair,
/// and lowers the bound to the overlap just consumed. No more particles
/// come out than words went in, and every word survives as a contiguous
/// substring of some particle, so the merge always succeeds.
#[verifier::rlimit(100)]
#[verifier::spinoff_prover]
pub fn generate_particles(words: &Vec<Vec<u8>>) -> (r: Result<Vec<Vec<u8>>, StateError>)
    requires
        forall|i: int, j: int| 0 <= i < j < words@.len() ==> words@[i]@ != words@[j]@,
        forall|i: int| 0 <= i < words@.len() ==> #[trigger] words@[i]@.len() >= 1,
    ensures
        r is Ok,
        match r {
            Ok(ps) => ps@.len() <= words@.len() && all_words_covered(words@, ps@),
            Err(_) => false,
        },
{
    let mut set: Vec<Vec<u8>> = Vec::new();
    let mut c: usize = 0;
    while c < words.len()
        invariant
            c <= words@.len(),
            set@.len() == c,
            forall|k: int| 0 <= k < c ==> #[trigger] set@[k]@ == words@[k]@,
        decreases words@.len() - c,
    {
        set.push(clone_bytes(&words[c]));
        c += 1;
    }
    proof {
        assert forall|i: int|
            0 <= i < words@.len() implies #[trigger] word_covered(set@, words@[i]@) by {
            lemma_substring_refl(words@[i]@);
            assert(set@[i]@ == words@[i]@);
            assert(is_substring(set@[i]@, words@[i]@));
        }
    }
    let mut upper_bound: usize = 16;
    loop
        invariant
            forall|i: int, j: int| 0 <= i < j < words@.len() ==> words@[i]@ != words@[j]@,
            forall|k: int, l: int| 0 <= k < l < set@.len() ==> set@[k]@ != set@[l]@,
            forall|k: int| 0 <= k < set@.len() ==> #[trigger] set@[k]@.len() >= 1,
            set@.len() <= words@.len(),
            upper_bound >= 1,
            all_words_covered(words@, set@),
        decreases set@.len(),
    {
        let n = set.len();
        // index the current particle set by its bytes
        let mut trie = trie_new();
        let mut bi: usize = 0;
        while bi < n
            invariant
                n == set@.len(),
                bi <= n,
                forall|k: int, l: int| 0 <= k < l < n ==> set@[k]@ != set@[l]@,
                forall|k: int| #![trigger set@[k]]
                    0 <= k < bi ==> trie_contents(trie).contains_key(set@[k]@) && trie_contents(
                        trie,
                    )[set@[k]@] == k,
                forall|key: Seq<u8>| #![trigger trie_contents(trie).contains_key(key)]
                    trie_contents(trie).contains_key(key) ==> trie_contents(trie)[key] < bi
                        && set@[trie_contents(trie)[key] as int]@ == key,
            decreases n - bi,
        {
            trie_insert(&mut trie, clone_bytes(&set[bi]), bi);
            bi += 1;
        }
        // find the longest overlap within the bound, remembering that a
        // distinct partner for it is stored in the trie
        let mut best_wi: usize = 0;
        let mut best_idx: usize = 0;
        let mut most: usize = 0;
        let mut wi: usize = 0;
        while wi < n
            invariant
                n == set@.len(),
                wi <= n,
                most >= 1 ==> best_wi < n && 1 <= best_idx < set@[best_wi as int]@.len() && (
                exists|kx: Seq<u8>| #[trigger]
                    trie_contents(trie).contains_key(kx) && kx != set@[best_wi as int]@
                        && set@[best_wi as int]@.subrange(
                        best_idx as int,
                        set@[best_wi as int]@.len() as int,
                    ).is_prefix_of(kx)),
            decreases n - wi,
        {
            let wl = set[wi].len();
            let start = if wl > upper_bound {
                wl - upper_bound
            } else {
                1
            };
            let mut idx = start;
            while idx < wl
                invariant
                    n == set@.len(),
                    wi < n,
                    wl == set@[wi as int]@.len(),
                    1 <= idx,
                    most >= 1 ==> best_wi < n && 1 <= best_idx < set@[best_wi as int]@.len() && (
                    exists|kx: Seq<u8>| #[trigger]
                        trie_contents(trie).contains_key(kx) && kx != set@[best_wi as int]@
                            && set@[best_wi as int]@.subrange(
                            best_idx as int,
                            set@[best_wi as int]@.len() as int,
                        ).is_prefix_of(kx)),
                decreases wl - idx,
            {
                if wl - idx > most {
                    let suffix = copy_range(&set[wi], idx, wl);
                    let keys = trie_descendant_keys(&trie, &suffix);
                    let mut ki: usize = 0;
                    let mut found = false;
                    while ki < keys.len()
                        invariant
                            n == set@.len(),
                            wi < n,
                            ki <= keys@.len(),
                            found ==> exists|k3: int|
                                0 <= k3 < keys@.len() && (#[trigger] keys@[k3])@ != set@[wi as int]@,
                        decreases keys@.len() - ki,
                    {
                        if !found && !bytes_equal(&keys[ki], &set[wi]) {
                            found = true;
                            proof {
                                assert(keys@[ki as int]@ != set@[wi as int]@);
                            }
                        }
                        ki += 1;
                    }
                    if found {
                        proof {
                            let k3 = choose|k3: int|
                                0 <= k3 < keys@.len() && (#[trigger] keys@[k3])@ != set@[wi as int]@;
                            assert(trie_contents(trie).contains_key(keys@[k3]@));
                            assert(suffix@.is_prefix_of(keys@[k3]@));
                        }
                        best_wi = wi;
                        best_idx = idx;
                        most = wl - idx;
                    }
                }
                idx += 1;
            }
            wi += 1;
        }
        if most == 0 {
            return Ok(set);
        }
        // merge the found pair: the recorded partner is still stored once
        // the merged word itself is taken out
        let ghost tc0 = trie_contents(trie);
        let best_word = clone_bytes(&set[best_wi]);
        trie_remove(&mut trie, &best_word);
        let suffix = copy_range(&best_word, best_idx, best_word.len());
        let partner = match trie_first_descendant(&trie, &suffix) {
            None => {
                proof {
                    let kx = choose|kx: Seq<u8>| #[trigger]
                        tc0.contains_key(kx) && kx != set@[best_wi as int]@ && set@[best_wi
                            as int]@.subrange(
                            best_idx as int,
                            set@[best_wi as int]@.len() as int,
                        ).is_prefix_of(kx);
                    assert(trie_contents(trie).contains_key(kx));
                    assert(suffix@.is_prefix_of(kx));
                    assert(false);
                }
                return Err(StateError::NoCandidate);
            },
            Some(kv) => kv,
        };
        let pi = partner.1;
        proof {
            assert(trie_contents(trie).contains_key(partner.0@));
            assert(pi < n && set@[pi as int]@ == partner.0@);
            assert(partner.0@ != best_word@);
            assert(pi != best_wi);
        }
        let overlap_len = best_word.len() - best_idx;
        let plen = set[pi].len();
        proof {
            assert(suffix@.is_prefix_of(set@[pi as int]@));
        }
        let mut merged = clone_bytes(&best_word);
        let mut tail_part = copy_range(&set[pi], overlap_len, plen);
        merged.append(&mut tail_part);
        proof {
            assert(merged@ == best_word@ + set@[pi as int]@.subrange(
                overlap_len as int,
                plen as int,
            ));
        }
        // rebuild the set without the two merged entries
        let mut newset: Vec<Vec<u8>> = Vec::new();
        let mut j: usize = 0;
        while j < n
            invariant
                n == set@.len(),
                j <= n,
                best_wi < n,
                pi < n,
                best_wi != pi,
                forall|k: int, l: int| 0 <= k < l < n ==> set@[k]@ != set@[l]@,
                forall|k: int| 0 <= k < n ==> #[trigger] set@[k]@.len() >= 1,
                forall|k: int, l: int| 0 <= k < l < newset@.len() ==> newset@[k]@ != newset@[l]@,
                forall|k: int| 0 <= k < newset@.len() ==> #[trigger] newset@[k]@.len() >= 1,
                forall|k: int, k2: int|
                    #![trigger newset@[k], set@[k2]]
                    0 <= k < newset@.len() && j <= k2 < n ==> newset@[k]@ != set@[k2]@,
                forall|k2: int| #![trigger set@[k2]]
                    0 <= k2 < j && k2 != best_wi && k2 != pi ==> holds_entry(
                        newset@,
                        set@[k2]@,
                    ),
                newset@.len() + (if best_wi < j {
                    1int
                } else {
                    0int
                }) + (if pi < j {
                    1int
                } else {
                    0int
                }) == j,
            decreases n - j,
        {
            if j != best_wi && j != pi {
                let ghost before = newset@;
                newset.push(clone_bytes(&set[j]));
                proof {
                    assert(newset@[newset@.len() - 1]@ == set@[j as int]@);
                    assert forall|k: int, k2: int|
                        #![trigger newset@[k], set@[k2]]
                        0 <= k < newset@.len() && j + 1 <= k2 < n implies newset@[k]@
                        != set@[k2]@ by {
                        if k == newset@.len() - 1 {
                            assert(set@[j as int]@ != set@[k2]@);
                        } else {
                            assert(before[k]@ != set@[k2]@);
                        }
                    }
                    assert forall|k: int, l: int|
                        0 <= k < l < newset@.len() implies newset@[k]@ != newset@[l]@ by {
                        if l == newset@.len() - 1 {
                            assert(before[k]@ != set@[j as int]@);
                        }
                    }
                    assert forall|k2: int| #![trigger set@[k2]]
                        0 <= k2 < j + 1 && k2 != best_wi && k2 != pi implies holds_entry(
                        newset@,
                        set@[k2]@,
                    ) by {
                        if k2 == j {
                            assert(newset@[newset@.len() - 1]@ == set@[j as int]@);
                        } else {
                            assert(holds_entry(before, set@[k2]@));
                            let k3 = choose|k3: int|
                                0 <= k3 < before.len() && (#[trigger] before[k3])@ == set@[k2]@;
                            assert(newset@[k3]@ == set@[k2]@);
                        }
                    }
                }
            }
            j += 1;
        }
        // skip the merged particle if an equal one is already present
        let mut present = false;
        let mut q: usize = 0;
        while q < newset.len()
            invariant
                q <= newset@.len(),
                present <==> exists|k: int| 0 <= k < q && #[trigger] newset@[k]@ == merged@,
            decreases newset@.len() - q,
        {
            if bytes_equal(&newset[q], &merged) {
                present = true;
                proof {
                    assert(newset@[q as int]@ == merged@);
                }
            }
            q += 1;
        }
        let ghost merged_view = merged@;
        let ghost rebuilt = newset@;
        if !present {
            newset.push(merged);
        }
        proof {
            // the merged particle, or its equal, stands in the new set
            assert(exists|k: int|
                0 <= k < newset@.len() && #[trigger] newset@[k]@ == merged_view) by {
                if present {
                    let k = choose|k: int| 0 <= k < rebuilt.len() && #[trigger] rebuilt[k]@
                        == merged_view;
                    assert(newset@[k]@ == merged_view);
                } else {
                    assert(newset@[rebuilt.len() as int]@ == merged_view);
                }
            }
            // the new set is still duplicate-free, non-empty, and smaller
            assert forall|k: int, l: int|
                0 <= k < l < newset@.len() implies newset@[k]@ != newset@[l]@ by {
                if l == rebuilt.len() && !present {
                    assert(newset@[l]@ == merged_view);
                    assert(!(exists|k3: int|
                        0 <= k3 < rebuilt.len() && #[trigger] rebuilt[k3]@ == merged_view));
                    assert(rebuilt[k]@ != merged_view);
                }
            }
            assert forall|k: int|
                0 <= k < newset@.len() implies #[trigger] newset@[k]@.len() >= 1 by {
                if k >= rebuilt.len() {
                    assert(newset@[k]@ == merged_view);
                }
            }
            assert(newset@.len() < set@.len());
            // both merged words lie inside the merged particle, so every
            // word is still covered
            assert(is_substring(merged_view, best_word@)) by {
                assert(merged_view.subrange(0, best_word@.len() as int) =~= best_word@);
                assert(matches_at(merged_view, best_word@, 0));
            }
            assert(is_substring(merged_view, set@[pi as int]@)) by {
                assert forall|t: int|
                    0 <= t < plen implies merged_view[best_idx + t] == set@[pi as int]@[t] by {
                    if t < overlap_len {
                        assert(merged_view[best_idx + t] == best_word@[best_idx + t]);
                        assert(suffix@[t] == best_word@[best_idx + t]);
                        assert(suffix@[t] == set@[pi as int]@[t]);
                    } else {
                        assert(merged_view[best_idx + t] == set@[pi as int]@.subrange(
                            overlap_len as int,
                            plen as int,
                        )[t - overlap_len]);
                    }
                }
                assert(merged_view.subrange(best_idx as int, best_idx + plen) =~= set@[pi
                    as int]@);
                assert(matches_at(merged_view, set@[pi as int]@, best_idx as int));
            }
            assert forall|i2: int|
                0 <= i2 < words@.len() implies #[trigger] word_covered(newset@, words@[i2]@) by {
                assert(word_covered(set@, words@[i2]@));
                let k = choose|k: int|
                    0 <= k < set@.len() && is_substring(#[trigger] set@[k]@, words@[i2]@);
                if k == best_wi || k == pi {
                    let src = if k == best_wi {
                        best_word@
                    } else {
                        set@[pi as int]@
                    };
                    lemma_substring_trans(merged_view, src, words@[i2]@);
                    let km = choose|km: int|
                        0 <= km < newset@.len() && #[trigger] newset@[km]@ == merged_view;
                    assert(is_substring(newset@[km]@, words@[i2]@));
                } else {
                    assert(holds_entry(rebuilt, set@[k]@));
                    let k3 = choose|k3: int|
                        0 <= k3 < rebuilt.len() && (#[trigger] rebuilt[k3])@ == set@[k]@;
                    assert(newset@[k3]@ == set@[k]@);
                    assert(is_substring(newset@[k3]@, words@[i2]@));
                }
            }
            assert(all_words_covered(words@, newset@));
        }
        upper_bound = most;
        set = newset;
    }
}

} // verus!
