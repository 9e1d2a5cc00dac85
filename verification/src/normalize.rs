//! Wordlist normalisation: drop every word that is a contiguous substring
//! of some other word, and every repeated copy of a word.

use vstd::prelude::*;
use crate::{contains_subsequence, is_substring};
use crate::search::clone_bytes;

verus! {

/// The byte sequences of a list of words.
pub open spec fn views(ws: Seq<Vec<u8>>) -> Seq<Seq<u8>> {
    ws.map_values(|v: Vec<u8>| v@)
}

/// Word `i` survives normalisation: no distinct word of the list contains
/// it, and no earlier entry equals it.
pub open spec fn kept(ws: Seq<Seq<u8>>, i: int) -> bool {
    &&& !(exists|j: int|
        0 <= j < ws.len() && ws[j] != ws[i] && is_substring(#[trigger] ws[j], ws[i]))
    &&& !(exists|j: int| 0 <= j < i && #[trigger] ws[j] == ws[i])
}

/// The surviving words among the first `k`, in their original order.
pub open spec fn normalize_prefix(ws: Seq<Seq<u8>>, k: int) -> Seq<Seq<u8>>
    decreases k,
{
    if k <= 0 {
        Seq::empty()
    } else {
        let rest = normalize_prefix(ws, k - 1);
        if kept(ws, k - 1) {
            rest.push(ws[k - 1])
        } else {
            rest
        }
    }
}

/// The normalised list: every word that no other word contains, one copy
/// each, in first-appearance order.
pub open spec fn normalize_spec(ws: Seq<Seq<u8>>) -> Seq<Seq<u8>> {
    normalize_prefix(ws, ws.len() as int)
}

/// Compare two byte words.
pub fn bytes_equal(a: &Vec<u8>, b: &Vec<u8>) -> (r: bool)
    ensures
        r == (a@ == b@),
{
    if a.len() != b.len() {
        return false;
    }
    let mut i: usize = 0;
    while i < a.len()
        invariant
            a@.len() == b@.len(),
            i <= a@.len(),
            forall|j: int| 0 <= j < i ==> a@[j] == b@[j],
        decreases a@.len() - i,
    {
        if a[i] != b[i] {
            return false;
        }
        i += 1;
    }
    proof {
        assert(a@ =~= b@);
    }
    true
}

/// Drop every word contained in a distinct word of the list, and every
/// repeated copy; keep the rest in order.
pub fn normalize(words: &Vec<Vec<u8>>) -> (r: Vec<Vec<u8>>)
    ensures
        views(r@) == normalize_spec(views(words@)),
{
    let ghost ws = views(words@);
    let n = words.len();
    let mut out: Vec<Vec<u8>> = Vec::new();
    let mut i: usize = 0;
    proof {
        assert(views(out@) =~= normalize_prefix(ws, 0));
    }
    while i < n
        invariant
            ws == views(words@),
            n == words@.len(),
            i <= n,
            views(out@) == normalize_prefix(ws, i as int),
        decreases n - i,
    {
        let mut no_super = true;
        let mut j: usize = 0;
        while j < n
            invariant
                ws == views(words@),
                n == words@.len(),
                i < n,
                j <= n,
                no_super <==> !(exists|l: int|
                    0 <= l < j && ws[l] != ws[i as int] && is_substring(
                        #[trigger] ws[l],
                        ws[i as int],
                    )),
            decreases n - j,
        {
            proof {
                assert(ws[j as int] == words@[j as int]@);
                assert(ws[i as int] == words@[i as int]@);
            }
            if !bytes_equal(&words[j], &words[i]) && contains_subsequence(
                words[j].as_slice(),
                words[i].as_slice(),
            ) {
                no_super = false;
                proof {
                    assert(ws[j as int] != ws[i as int] && is_substring(
                        ws[j as int],
                        ws[i as int],
                    ));
                }
            }
            j += 1;
        }
        let mut no_dup = true;
        let mut j2: usize = 0;
        while j2 < i
            invariant
                ws == views(words@),
                n == words@.len(),
                i < n,
                j2 <= i,
                no_dup <==> !(exists|l: int| 0 <= l < j2 && #[trigger] ws[l] == ws[i as int]),
            decreases i - j2,
        {
            proof {
                assert(ws[j2 as int] == words@[j2 as int]@);
                assert(ws[i as int] == words@[i as int]@);
            }
            if bytes_equal(&words[j2], &words[i]) {
                no_dup = false;
                proof {
                    assert(ws[j2 as int] == ws[i as int]);
                }
            }
            j2 += 1;
        }
        proof {
            assert((no_super && no_dup) == kept(ws, i as int));
        }
        if no_super && no_dup {
            let w = clone_bytes(&words[i]);
            out.push(w);
            proof {
                assert(views(out@) =~= normalize_prefix(ws, i + 1));
            }
        } else {
            proof {
                assert(views(out@) =~= normalize_prefix(ws, i + 1));
            }
        }
        i += 1;
    }
    proof {
        assert(views(out@) == normalize_prefix(ws, ws.len() as int));
    }
    out
}

/// Entry `t` of the normalised prefix of length `k` is some surviving
/// input word.
pub open spec fn np_elem_ok(ws: Seq<Seq<u8>>, k: int, t: int) -> bool {
    exists|i: int|
        0 <= i < k && #[trigger] ws[i] == normalize_prefix(ws, k)[t] && kept(ws, i)
}

/// Every entry of a normalised prefix is a surviving word from the input,
/// and no word appears twice.
pub proof fn lemma_np_elements(ws: Seq<Seq<u8>>, k: int)
    requires
        0 <= k <= ws.len(),
    ensures
        forall|t: int|
            0 <= t < normalize_prefix(ws, k).len() ==> #[trigger] np_elem_ok(ws, k, t),
        forall|t: int, l: int|
            0 <= t < l < normalize_prefix(ws, k).len() ==> normalize_prefix(ws, k)[t]
                != normalize_prefix(ws, k)[l],
    decreases k,
{
    if k > 0 {
        lemma_np_elements(ws, k - 1);
        let rest = normalize_prefix(ws, k - 1);
        let np = normalize_prefix(ws, k);
        if kept(ws, k - 1) {
            assert(np == rest.push(ws[k - 1]));
            assert forall|t: int|
                0 <= t < np.len() implies #[trigger] np_elem_ok(ws, k, t) by {
                if t < rest.len() {
                    assert(np_elem_ok(ws, k - 1, t));
                    let i = choose|i: int|
                        0 <= i < k - 1 && #[trigger] ws[i] == normalize_prefix(ws, k - 1)[t]
                            && kept(ws, i);
                    assert(ws[i] == normalize_prefix(ws, k)[t] && kept(ws, i));
                } else {
                    assert(ws[k - 1] == normalize_prefix(ws, k)[t] && kept(ws, k - 1));
                }
            }
            assert forall|t: int, l: int|
                0 <= t < l < np.len() implies np[t] != np[l] by {
                if l == np.len() - 1 {
                    assert(np_elem_ok(ws, k - 1, t));
                    let i = choose|i: int|
                        0 <= i < k - 1 && #[trigger] ws[i] == normalize_prefix(ws, k - 1)[t]
                            && kept(ws, i);
                    if np[t] == ws[k - 1] {
                        assert(ws[i] == ws[k - 1]);
                        assert(!kept(ws, k - 1));
                    }
                }
            }
        } else {
            assert(np == rest);
            assert forall|t: int|
                0 <= t < np.len() implies #[trigger] np_elem_ok(ws, k, t) by {
                assert(np_elem_ok(ws, k - 1, t));
                let i = choose|i: int|
                    0 <= i < k - 1 && #[trigger] ws[i] == normalize_prefix(ws, k - 1)[t] && kept(
                        ws,
                        i,
                    );
                assert(ws[i] == normalize_prefix(ws, k)[t] && kept(ws, i));
            }
        }
    }
}

/// A prefix whose every entry survives normalisation is returned whole.
pub proof fn lemma_np_all_kept(ws: Seq<Seq<u8>>, k: int)
    requires
        0 <= k <= ws.len(),
        forall|i: int| 0 <= i < k ==> kept(ws, i),
    ensures
        normalize_prefix(ws, k) == ws.subrange(0, k),
    decreases k,
{
    if k > 0 {
        lemma_np_all_kept(ws, k - 1);
        assert(normalize_prefix(ws, k) =~= ws.subrange(0, k));
    }
}

/// Normalising is idempotent: the output passes through a second
/// normalisation unchanged.
pub proof fn lemma_normalize_idempotent(ws: Seq<Seq<u8>>)
    ensures
        normalize_spec(normalize_spec(ws)) == normalize_spec(ws),
{
    let out = normalize_spec(ws);
    let n = ws.len() as int;
    lemma_np_elements(ws, n);
    assert forall|t: int| 0 <= t < out.len() implies kept(out, t) by {
        assert(np_elem_ok(ws, n, t));
        let i = choose|i: int|
            0 <= i < n && #[trigger] ws[i] == normalize_prefix(ws, n)[t] && kept(ws, i);
        if exists|l: int|
            0 <= l < out.len() && out[l] != out[t] && is_substring(#[trigger] out[l], out[t]) {
            let l = choose|l: int|
                0 <= l < out.len() && out[l] != out[t] && is_substring(#[trigger] out[l], out[t]);
            assert(np_elem_ok(ws, n, l));
            let j = choose|j: int|
                0 <= j < n && #[trigger] ws[j] == normalize_prefix(ws, n)[l] && kept(ws, j);
            assert(ws[j] != ws[i] && is_substring(ws[j], ws[i]));
            assert(!kept(ws, i));
        }
        if exists|l: int| 0 <= l < t && #[trigger] out[l] == out[t] {
            let l = choose|l: int| 0 <= l < t && #[trigger] out[l] == out[t];
            assert(out[l] != out[t]);
        }
    }
    lemma_np_all_kept(out, out.len() as int);
    assert(normalize_spec(out) =~= out);
}

} // verus!
