//! Chain state over particles: a dense array of byte particles linked into
//! chains by overlap or padded edges, with endpoint bookkeeping, a score
//! equal to the length of the rendered portmantout, and the randomised
//! coalescing and breaking passes that rearrange the chains.

use vstd::prelude::*;
use vstd::pervasive::VecAdditionalExecFns;
use std::collections::HashSet;
use crate::trie::{
    ByteTrie, trie_contents, trie_first_descendant, trie_descendant_keys, trie_new, trie_len,
    trie_insert, trie_remove,
};
use crate::rng::rng_below;
use crate::{matches_at, is_substring};

verus! {

broadcast use vstd::std_specs::hash::group_hash_axioms;

/// Byte-vector key wrapper for trie lookups.
#[derive(PartialEq, Eq, Debug)]
pub struct BytesTrieKey(pub Vec<u8>);

impl BytesTrieKey {
    /// The raw bytes of the key.
    pub fn encode(&self) -> (r: Vec<u8>)
        ensures
            r@ == self.0@,
    {
        clone_bytes(&self.0)
    }
}

/// Copy a byte vector; the copy holds exactly the same bytes.
pub fn clone_bytes(v: &Vec<u8>) -> (r: Vec<u8>)
    ensures
        r@ == v@,
{
    let mut r: Vec<u8> = Vec::new();
    let mut i: usize = 0;
    while i < v.len()
        invariant
            i <= v.len(),
            r@ =~= v@.subrange(0, i as int),
        decreases v.len() - i,
    {
        r.push(v[i]);
        i += 1;
    }
    proof {
        assert(r@ =~= v@);
    }
    r
}

/// The connection between two adjacent particles in a chain.
pub enum Edge {
    /// The last `n` bytes of the left particle equal the first `n` bytes of
    /// the right particle, `n >= 1`.
    Overlapped(usize),
    /// The padding bytes are written between the two particles; empty
    /// padding is legal.
    Padded { padding: Vec<u8> },
}

impl Edge {
    /// Cost contributed to the state score: `-n` for an overlap of `n`,
    /// the padding length for a padded edge.
    pub open spec fn spec_score(self) -> int {
        match self {
            Edge::Overlapped(n) => -(n as int),
            Edge::Padded { padding } => padding.len() as int,
        }
    }

    /// Edge score as a machine integer; smaller is better.
    pub fn score(&self) -> (r: isize)
        requires
            match *self {
                Edge::Overlapped(n) => n <= isize::MAX as usize,
                Edge::Padded { padding } => padding.len() <= isize::MAX as usize,
            },
        ensures
            r as int == self.spec_score(),
    {
        match self {
            Edge::Overlapped(n) => -(*n as isize),
            Edge::Padded { padding } => padding.len() as isize,
        }
    }
}

/// Right link of a particle that is connected on the right.
pub struct Next {
    pub next_idx: usize,
    pub edge: Edge,
}

/// Bookkeeping for a particle unconnected on the right: the head of its
/// chain.
pub struct NoNext {
    pub chain_start_idx: usize,
}

/// Left link of a particle that is connected on the left.
pub struct Prev {
    pub prev_idx: usize,
}

/// Bookkeeping for a particle unconnected on the left: the tail of its
/// chain.
pub struct NoPrev {
    pub chain_end_idx: usize,
}

/// An atomic unit of layout: a non-empty byte sequence with its links.
pub struct Particle {
    pub chars: Vec<u8>,
    pub next: Result<Next, NoNext>,
    pub prev: Result<Prev, NoPrev>,
}

impl Particle {
    /// A fresh, unlinked particle that forms a singleton chain at `idx`.
    pub fn new(chars: Vec<u8>, idx: usize) -> (r: Particle)
        ensures
            r.chars == chars,
            r.next == Err::<Next, NoNext>(NoNext { chain_start_idx: idx }),
            r.prev == Err::<Prev, NoPrev>(NoPrev { chain_end_idx: idx }),
    {
        Particle {
            chars,
            next: Err(NoNext { chain_start_idx: idx }),
            prev: Err(NoPrev { chain_end_idx: idx }),
        }
    }
}

/// Why a state could not be built or rearranged.
#[derive(Clone, Copy, PartialEq, Eq, Structural, Debug)]
pub enum StateError {
    /// No word begins with the bytes `portmanteau`.
    NoStarticle,
    /// A particle was given as an empty byte sequence.
    EmptyWord,
    /// A length or score would not fit in a machine integer.
    Oversize,
    /// The joiner words offer no edge out of a particle.
    NoCandidate,
    /// A particle does not occur in the byte string being resumed.
    ParticleMissing,
    /// Endpoint bookkeeping contradicts the links.
    BrokenInvariant,
}

/// The full chain state.
pub struct State {
    pub particles: Vec<Particle>,
    /// Sum of particle lengths plus edge scores: the rendered length.
    pub score: isize,
    /// Sum of particle lengths plus padding lengths; bounds the score from
    /// above however many edges are later cut.
    pub bulk: isize,
    /// Indices whose `next` is unset, in insertion order.
    pub unconnected_on_right: Vec<usize>,
    /// Non-starticle indices whose `prev` is unset.
    pub unconnected_on_left: HashSet<usize>,
    pub starticle_idx: usize,
    /// The chains as lists of particle indices, left to right; together
    /// they hold every index exactly once, so the links never cycle.
    pub chains: Ghost<Seq<Seq<int>>>,
}

/// The indices of `c` spell out one chain of `ps`: consecutive entries are
/// linked left to right, the first entry is the head and records the last
/// as its chain's end, and the last entry is the tail and records the
/// first as its chain's start.
pub open spec fn chain_shape(ps: Seq<Particle>, c: Seq<int>) -> bool {
    &&& c.len() >= 1
    &&& forall|t: int| 0 <= t < c.len() ==> 0 <= #[trigger] c[t] < ps.len()
    &&& forall|t: int|
        0 <= t < c.len() - 1 ==> (#[trigger] ps[c[t]].next) is Ok
            && ps[c[t]].next->Ok_0.next_idx as int == c[t + 1]
    &&& ps[c[c.len() - 1]].next == Err::<Next, NoNext>(NoNext { chain_start_idx: c[0] as usize })
    &&& ps[c[0]].prev == Err::<Prev, NoPrev>(NoPrev { chain_end_idx: c[c.len() - 1] as usize })
}

/// Some chain of `cs` holds index `i`.
pub open spec fn some_chain_holds(cs: Seq<Seq<int>>, i: int) -> bool {
    exists|k: int, t: int|
        #![trigger cs[k][t]]
        0 <= k < cs.len() && 0 <= t < cs[k].len() && cs[k][t] == i
}

/// The chain list `cs` partitions the particle indices: each entry is a
/// chain, no index is missing, and no index appears twice — in one chain
/// or across two. The links therefore never cycle, and every recorded
/// chain start and end names the true endpoint of its own chain.
#[verifier::opaque]
pub open spec fn chains_partition(ps: Seq<Particle>, cs: Seq<Seq<int>>) -> bool {
    &&& forall|k: int| 0 <= k < cs.len() ==> chain_shape(ps, #[trigger] cs[k])
    &&& forall|i: int| 0 <= i < ps.len() ==> some_chain_holds(cs, i)
    &&& forall|k1: int, t1: int, k2: int, t2: int|
        #![trigger cs[k1][t1], cs[k2][t2]]
        0 <= k1 < cs.len() && 0 <= t1 < cs[k1].len() && 0 <= k2 < cs.len() && 0 <= t2
            < cs[k2].len() && cs[k1][t1] == cs[k2][t2] ==> k1 == k2 && t1 == t2
}

/// A sequence of distinct integers drawn from `[0, n)` has at most `n`
/// entries.
proof fn lemma_distinct_in_range_bound(c: Seq<int>, n: int)
    requires
        n >= 0,
        forall|t: int| 0 <= t < c.len() ==> 0 <= #[trigger] c[t] < n,
        forall|t1: int, t2: int| 0 <= t1 < t2 < c.len() ==> c[t1] != c[t2],
    ensures
        c.len() <= n,
{
    broadcast use vstd::set::group_set_axioms;

    assert(c.no_duplicates());
    c.unique_seq_to_set();
    let rng = vstd::set_lib::set_int_range(0, n);
    vstd::set_lib::lemma_int_range(0, n);
    assert(c.to_set().subset_of(rng));
    vstd::set_lib::lemma_len_subset(c.to_set(), rng);
}

/// The chain list after the chains at `ka` and `kb` merge: the chain at
/// `ka` grows by the one at `kb`, which disappears.
pub open spec fn merge_chain_list(cs: Seq<Seq<int>>, ka: int, kb: int) -> Seq<Seq<int>> {
    Seq::new(
        (cs.len() - 1) as nat,
        |j: int|
            {
                let jo = if j < kb {
                    j
                } else {
                    j + 1
                };
                if jo == ka {
                    cs[ka] + cs[kb]
                } else {
                    cs[jo]
                }
            },
    )
}

/// The chain list after the chain at `k` is cut behind position `t`: the
/// entries through `t` stay at `k`, the rest become a new chain.
pub open spec fn split_chain_list(cs: Seq<Seq<int>>, k: int, t: int) -> Seq<Seq<int>> {
    cs.update(k, cs[k].subrange(0, t + 1)).push(cs[k].subrange(t + 1, cs[k].len() as int))
}

/// Where a given particle index sits in a partition: the chain and
/// position that hold it, with the endpoint facts that follow when the
/// particle is unconnected on either side.
proof fn lemma_find_chain(s: State, i: int) -> (r: (int, int))
    requires
        s.wf(),
        0 <= i < s.particles@.len(),
    ensures
        ({
            let (k, t) = r;
            let cs = s.chains@;
            &&& 0 <= k < cs.len()
            &&& 0 <= t < cs[k].len()
            &&& cs[k][t] == i
            &&& (s.particles@[i].next is Err ==> t == cs[k].len() - 1
                && s.particles@[i].next->Err_0.chain_start_idx as int == cs[k][0])
            &&& (s.particles@[i].prev is Err ==> t == 0
                && s.particles@[i].prev->Err_0.chain_end_idx as int == cs[k][cs[k].len() - 1])
        }),
{
    reveal(chains_partition);
    reveal(State::links_ok);
    let cs = s.chains@;
    let ps = s.particles@;
    assert(some_chain_holds(cs, i));
    let (k, t): (int, int) = choose|k: int, t: int|
        #![trigger cs[k][t]]
        0 <= k < cs.len() && 0 <= t < cs[k].len() && cs[k][t] == i;
    assert(chain_shape(ps, cs[k]));
    if ps[i].next is Err {
        if t < cs[k].len() - 1 {
            assert(ps[cs[k][t]].next is Ok);
            assert(false);
        }
    }
    if ps[i].prev is Err {
        if t >= 1 {
            assert(ps[cs[k][t - 1]].next is Ok && ps[cs[k][t - 1]].next->Ok_0.next_idx as int
                == cs[k][t]);
            assert(ps[cs[k][t]].prev == Ok::<Prev, NoPrev>(
                Prev { prev_idx: cs[k][t - 1] as usize },
            ));
            assert(false);
        }
    }
    (k, t)
}

/// The chain start recorded at a tail names the head of that same chain:
/// a real head, unclaimed unless it is the starticle.
proof fn lemma_tail_names_head(s: State, p: int)
    requires
        s.wf(),
        0 <= p < s.particles@.len(),
        s.particles@[p].next is Err,
    ensures
        ({
            let h = s.particles@[p].next->Err_0.chain_start_idx;
            &&& h < s.particles@.len()
            &&& s.particles@[h as int].prev is Err
            &&& (h != s.starticle_idx ==> s.unconnected_on_left@.contains(h))
        }),
{
    let (kp, tp) = lemma_find_chain(s, p);
    reveal(chains_partition);
    assert(chain_shape(s.particles@, s.chains@[kp]));
    let h = s.particles@[p].next->Err_0.chain_start_idx;
    assert(h as int == s.chains@[kp][0]);
    assert(s.particles@[h as int].prev == Err::<Prev, NoPrev>(
        NoPrev { chain_end_idx: s.chains@[kp][s.chains@[kp].len() - 1] as usize },
    ));
    if h != s.starticle_idx {
        assert(s.unconnected_on_left@.contains(h)) by {
            reveal(State::uol_ok);
        }
    }
}

/// A chain head other than a tail's recorded chain start sits on another
/// chain, so neither it nor its own chain's recorded end is that tail.
proof fn lemma_other_chain_facts(s: State, p: usize, q: usize)
    requires
        s.wf(),
        p < s.particles@.len(),
        q < s.particles@.len(),
        s.particles@[p as int].next is Err,
        s.particles@[q as int].prev is Err,
        q != s.particles@[p as int].next->Err_0.chain_start_idx,
    ensures
        q != p,
        ({
            let e = s.particles@[q as int].prev->Err_0.chain_end_idx;
            &&& e < s.particles@.len()
            &&& s.particles@[e as int].next is Err
            &&& e != p
        }),
{
    let (kq, tq) = lemma_find_chain(s, q as int);
    let (kp, tp) = lemma_find_chain(s, p as int);
    reveal(chains_partition);
    assert(chain_shape(s.particles@, s.chains@[kq]));
    assert(chain_shape(s.particles@, s.chains@[kp]));
    let sh = s.particles@[p as int].next->Err_0.chain_start_idx;
    assert(sh as int == s.chains@[kp][0]);
    assert(tq == 0 && tp == s.chains@[kp].len() - 1);
    if q == p {
        assert(s.chains@[kq][tq] == s.chains@[kp][tp]);
        assert(kq == kp && tq == tp);
        assert(q as int == s.chains@[kp][0]);
        assert(false);
    }
    let e = s.particles@[q as int].prev->Err_0.chain_end_idx;
    assert(e as int == s.chains@[kq][s.chains@[kq].len() - 1]);
    assert(s.particles@[e as int].next == Err::<Next, NoNext>(
        NoNext { chain_start_idx: s.chains@[kq][0] as usize },
    ));
    if e == p {
        assert(s.chains@[kq][s.chains@[kq].len() - 1] == s.chains@[kp][tp]);
        assert(kq == kp);
        assert(q as int == s.chains@[kq][0]);
        assert(false);
    }
}

/// Some queued index is the tail of the starticle's own chain.
proof fn lemma_starticle_tail_queued(s: State) -> (jt: int)
    requires
        s.wf(),
    ensures
        0 <= jt < s.unconnected_on_right@.len(),
        ({
            let pi = s.unconnected_on_right@[jt] as int;
            &&& s.particles@[pi].next is Err
            &&& s.particles@[pi].next->Err_0.chain_start_idx == s.starticle_idx
        }),
{
    let (ks, ts) = lemma_find_chain(s, s.starticle_idx as int);
    let cs = s.chains@;
    reveal(chains_partition);
    assert(chain_shape(s.particles@, cs[ks]));
    assert(ts == 0);
    let tail = cs[ks][cs[ks].len() - 1];
    assert(s.particles@[tail].next == Err::<Next, NoNext>(
        NoNext { chain_start_idx: cs[ks][0] as usize },
    ));
    assert(cs[ks][0] == s.starticle_idx as int);
    assert(s.unconnected_on_right@.contains(tail as usize)) by {
        reveal(State::uor_ok);
    }
    let jt = choose|jt: int|
        0 <= jt < s.unconnected_on_right@.len() && s.unconnected_on_right@[jt] == tail as usize;
    jt
}

/// Under full pair coverage the edge search cannot come back empty, and
/// a padded pick carries no padding at all.
proof fn lemma_covered_search(
    s: State,
    chars_p: Seq<u8>,
    r: Option<Next>,
    words: Map<Seq<u8>, usize>,
    pt0: Map<Seq<u8>, usize>,
    pt1: Map<Seq<u8>, usize>,
)
    requires
        joiners_cover_pairs(words),
        s.links_ok(),
        heads_trie_ok(s, pt0),
        chars_p.len() >= 1,
        find_next_post(chars_p, r, words, pt1),
        forall|k: Seq<u8>| #![trigger pt1.contains_key(k)]
            pt1.contains_key(k) ==> pt0.contains_key(k),
        pt1.dom().finite(),
        pt1.dom().len() >= 1,
    ensures
        r is Some,
        pad_of(r->0.edge) == 0,
        r->0.edge.spec_score() <= 0,
{
    reveal(heads_trie_ok);
    reveal(State::links_ok);
    assert(exists|k: Seq<u8>| pt1.dom().contains(k)) by {
        if !(exists|k: Seq<u8>| pt1.dom().contains(k)) {
            assert(pt1.dom() =~= Set::<Seq<u8>>::empty());
        }
    }
    let kk = choose|k: Seq<u8>| pt1.dom().contains(k);
    assert(pt0.contains_key(kk));
    assert(kk.len() >= 1);
    lemma_pair_gives_zero_choice(chars_p, words, pt1, kk);
    match r {
        None => {
            assert(false);
        },
        Some(nx) => {
            match nx.edge {
                Edge::Overlapped(nn) => {},
                Edge::Padded { padding } => {
                    assert(padding@.len() <= 0);
                },
            }
        },
    }
}

/// Linking the tail of the chain at `ka` to the head of the chain at `kb`
/// merges the two chains and leaves every other chain untouched.
#[verifier::rlimit(100)]
#[verifier::spinoff_prover]
proof fn lemma_merge_chains(
    ps0: Seq<Particle>,
    ps: Seq<Particle>,
    cs0: Seq<Seq<int>>,
    ka: int,
    kb: int,
    nx: Next,
)
    requires
        chains_partition(ps0, cs0),
        ps.len() == ps0.len(),
        0 <= ka < cs0.len(),
        0 <= kb < cs0.len(),
        ka != kb,
        ({
            let p = cs0[ka][cs0[ka].len() - 1];
            let s = cs0[ka][0];
            let q = cs0[kb][0];
            let e = cs0[kb][cs0[kb].len() - 1];
            &&& nx.next_idx as int == q
            &&& forall|i: int|
                0 <= i < ps.len() ==> (#[trigger] ps[i].next) == (if i == e {
                    Err::<Next, NoNext>(NoNext { chain_start_idx: s as usize })
                } else if i == p {
                    Ok::<Next, NoNext>(nx)
                } else {
                    ps0[i].next
                })
            &&& forall|i: int|
                0 <= i < ps.len() ==> (#[trigger] ps[i].prev) == (if i == s {
                    Err::<Prev, NoPrev>(NoPrev { chain_end_idx: e as usize })
                } else if i == q {
                    Ok::<Prev, NoPrev>(Prev { prev_idx: p as usize })
                } else {
                    ps0[i].prev
                })
        }),
    ensures
        chains_partition(ps, merge_chain_list(cs0, ka, kb)),
{
    reveal(chains_partition);
    let a = cs0[ka];
    let b = cs0[kb];
    let la = a.len() as int;
    let lb = b.len() as int;
    let m = a + b;
    let cs = merge_chain_list(cs0, ka, kb);
    assert(chain_shape(ps0, a));
    assert(chain_shape(ps0, b));
    let p = a[la - 1];
    let s = a[0];
    let q = b[0];
    let e = b[lb - 1];
    // entries of the two chains never collide, within or across
    assert forall|t1: int, t2: int| 0 <= t1 < la && 0 <= t2 < lb implies a[t1] != b[t2] by {
        if a[t1] == b[t2] {
            assert(cs0[ka][t1] == cs0[kb][t2]);
        }
    }
    assert forall|t1: int, t2: int| 0 <= t1 < t2 < la implies a[t1] != a[t2] by {
        if a[t1] == a[t2] {
            assert(cs0[ka][t1] == cs0[ka][t2]);
        }
    }
    assert forall|t1: int, t2: int| 0 <= t1 < t2 < lb implies b[t1] != b[t2] by {
        if b[t1] == b[t2] {
            assert(cs0[kb][t1] == cs0[kb][t2]);
        }
    }
    // the merged chain has the right shape
    assert(chain_shape(ps, m)) by {
        assert(m.len() == la + lb);
        assert forall|t: int| 0 <= t < m.len() - 1 implies (#[trigger] ps[m[t]].next) is Ok
            && ps[m[t]].next->Ok_0.next_idx as int == m[t + 1] by {
            if t < la - 1 {
                assert(m[t] == a[t] && m[t + 1] == a[t + 1]);
                assert(a[t] != p && a[t] != e);
                assert(ps[m[t]].next == ps0[a[t]].next);
            } else if t == la - 1 {
                assert(m[t] == p && m[t + 1] == b[0]);
                assert(p != e);
                assert(ps[m[t]].next == Ok::<Next, NoNext>(nx));
            } else {
                assert(m[t] == b[t - la] && m[t + 1] == b[t + 1 - la]);
                assert(b[t - la] != e && b[t - la] != p);
                assert(ps[m[t]].next == ps0[b[t - la]].next);
            }
        }
        assert(m[m.len() - 1] == e);
        assert(ps[e].next == Err::<Next, NoNext>(NoNext { chain_start_idx: s as usize }));
        assert(m[0] == s);
        assert(ps[s].prev == Err::<Prev, NoPrev>(NoPrev { chain_end_idx: e as usize }));
    }
    // every other chain keeps its shape: none of its entries was touched
    assert forall|k: int| 0 <= k < cs.len() implies chain_shape(ps, #[trigger] cs[k]) by {
        let ko = if k < kb {
            k
        } else {
            k + 1
        };
        if ko == ka {
            assert(cs[k] == m);
        } else {
            let c = cs0[ko];
            assert(chain_shape(ps0, c));
            assert forall|t: int| 0 <= t < c.len() implies ps[#[trigger] c[t]].next
                == ps0[c[t]].next && ps[c[t]].prev == ps0[c[t]].prev by {
                if c[t] == p || c[t] == s {
                    let ti = if c[t] == p {
                        la - 1
                    } else {
                        0
                    };
                    assert(cs0[ko][t] == cs0[ka][ti]);
                    assert(false);
                }
                if c[t] == q || c[t] == e {
                    let ti = if c[t] == q {
                        0
                    } else {
                        lb - 1
                    };
                    assert(cs0[ko][t] == cs0[kb][ti]);
                    assert(false);
                }
            }
            assert(cs[k] == c);
        }
    }
    // every index is still held, exactly once
    assert forall|i: int| 0 <= i < ps.len() implies some_chain_holds(cs, i) by {
        assert(some_chain_holds(cs0, i));
        let (k0, t0): (int, int) = choose|k0: int, t0: int|
            #![trigger cs0[k0][t0]]
            0 <= k0 < cs0.len() && 0 <= t0 < cs0[k0].len() && cs0[k0][t0] == i;
        let kn = if k0 == kb {
            if ka < kb {
                ka
            } else {
                ka - 1
            }
        } else if k0 < kb {
            k0
        } else {
            k0 - 1
        };
        if k0 == ka {
            assert(cs[kn] == m && m[t0] == a[t0]);
            assert(cs[kn][t0] == i);
        } else if k0 == kb {
            assert(cs[kn] == m && m[la + t0] == b[t0]);
            assert(cs[kn][la + t0] == i);
        } else {
            assert(cs[kn] == cs0[k0]);
            assert(cs[kn][t0] == i);
        }
    }
    assert forall|k1: int, t1: int, k2: int, t2: int|
        #![trigger cs[k1][t1], cs[k2][t2]]
        0 <= k1 < cs.len() && 0 <= t1 < cs[k1].len() && 0 <= k2 < cs.len() && 0 <= t2
            < cs[k2].len() && cs[k1][t1] == cs[k2][t2] implies k1 == k2 && t1 == t2 by {
        let ko1 = if k1 < kb {
            k1
        } else {
            k1 + 1
        };
        let ko2 = if k2 < kb {
            k2
        } else {
            k2 + 1
        };
        let (ka1, ta1): (int, int) = if ko1 == ka {
            if t1 < la {
                (ka, t1)
            } else {
                (kb, t1 - la)
            }
        } else {
            (ko1, t1)
        };
        let (ka2, ta2): (int, int) = if ko2 == ka {
            if t2 < la {
                (ka, t2)
            } else {
                (kb, t2 - la)
            }
        } else {
            (ko2, t2)
        };
        assert(cs0[ka1][ta1] == cs[k1][t1]);
        assert(cs0[ka2][ta2] == cs[k2][t2]);
        assert(ka1 == ka2 && ta1 == ta2);
    }
}

/// Cutting the edge behind position `t` of the chain at `k` splits it
/// into two chains and leaves every other chain untouched.
#[verifier::rlimit(100)]
#[verifier::spinoff_prover]
proof fn lemma_split_chains(ps0: Seq<Particle>, ps: Seq<Particle>, cs0: Seq<Seq<int>>, k: int, t: int)
    requires
        chains_partition(ps0, cs0),
        ps.len() == ps0.len(),
        0 <= k < cs0.len(),
        0 <= t < cs0[k].len() - 1,
        ({
            let c = cs0[k];
            let p = c[t];
            let right = c[t + 1];
            let head = c[0];
            let tail = c[c.len() - 1];
            &&& forall|i: int|
                0 <= i < ps.len() ==> (#[trigger] ps[i].next) == (if i == p {
                    Err::<Next, NoNext>(NoNext { chain_start_idx: head as usize })
                } else if i == tail {
                    Err::<Next, NoNext>(NoNext { chain_start_idx: right as usize })
                } else {
                    ps0[i].next
                })
            &&& forall|i: int|
                0 <= i < ps.len() ==> (#[trigger] ps[i].prev) == (if i == right {
                    Err::<Prev, NoPrev>(NoPrev { chain_end_idx: tail as usize })
                } else if i == head {
                    Err::<Prev, NoPrev>(NoPrev { chain_end_idx: p as usize })
                } else {
                    ps0[i].prev
                })
        }),
    ensures
        chains_partition(ps, split_chain_list(cs0, k, t)),
{
    reveal(chains_partition);
    let c = cs0[k];
    let lc = c.len() as int;
    let p = c[t];
    let right = c[t + 1];
    let head = c[0];
    let tail = c[lc - 1];
    let left_c = c.subrange(0, t + 1);
    let right_c = c.subrange(t + 1, lc);
    let cs = split_chain_list(cs0, k, t);
    assert(chain_shape(ps0, c));
    assert forall|t1: int, t2: int| 0 <= t1 < t2 < lc implies c[t1] != c[t2] by {
        if c[t1] == c[t2] {
            assert(cs0[k][t1] == cs0[k][t2]);
        }
    }
    assert(chain_shape(ps, left_c)) by {
        assert forall|u: int| 0 <= u < left_c.len() - 1 implies (#[trigger] ps[left_c[u]].next) is Ok
            && ps[left_c[u]].next->Ok_0.next_idx as int == left_c[u + 1] by {
            assert(left_c[u] == c[u] && left_c[u + 1] == c[u + 1]);
            assert(c[u] != p && c[u] != tail);
            assert(ps[c[u]].next == ps0[c[u]].next);
        }
        assert(left_c[left_c.len() - 1] == p && left_c[0] == head);
        assert(ps[p].next == Err::<Next, NoNext>(NoNext { chain_start_idx: head as usize }));
        if head == right {
            assert(c[0] == c[t + 1]);
            assert(false);
        }
        assert(ps[head].prev == Err::<Prev, NoPrev>(NoPrev { chain_end_idx: p as usize }));
    }
    assert(chain_shape(ps, right_c)) by {
        assert forall|u: int| 0 <= u < right_c.len() - 1 implies (#[trigger] ps[right_c[u]].next) is Ok
            && ps[right_c[u]].next->Ok_0.next_idx as int == right_c[u + 1] by {
            assert(right_c[u] == c[t + 1 + u] && right_c[u + 1] == c[t + 2 + u]);
            assert(c[t + 1 + u] != p && c[t + 1 + u] != tail);
            assert(ps[c[t + 1 + u]].next == ps0[c[t + 1 + u]].next);
        }
        assert(right_c[right_c.len() - 1] == tail && right_c[0] == right);
        if tail == p {
            assert(c[t] == c[lc - 1]);
            assert(false);
        }
        assert(ps[tail].next == Err::<Next, NoNext>(NoNext { chain_start_idx: right as usize }));
        assert(ps[right].prev == Err::<Prev, NoPrev>(NoPrev { chain_end_idx: tail as usize }));
    }
    assert forall|k2: int| 0 <= k2 < cs.len() implies chain_shape(ps, #[trigger] cs[k2]) by {
        if k2 == k {
            assert(cs[k2] == left_c);
        } else if k2 == cs0.len() as int {
            assert(cs[k2] == right_c);
        } else {
            let c2 = cs0[k2];
            assert(chain_shape(ps0, c2));
            assert forall|u: int| 0 <= u < c2.len() implies ps[#[trigger] c2[u]].next
                == ps0[c2[u]].next && ps[c2[u]].prev == ps0[c2[u]].prev by {
                if c2[u] == p || c2[u] == tail || c2[u] == right || c2[u] == head {
                    let ti = if c2[u] == p {
                        t
                    } else if c2[u] == tail {
                        lc - 1
                    } else if c2[u] == right {
                        t + 1
                    } else {
                        0
                    };
                    assert(cs0[k2][u] == cs0[k][ti]);
                    assert(false);
                }
            }
            assert(cs[k2] == c2);
        }
    }
    assert forall|i: int| 0 <= i < ps.len() implies some_chain_holds(cs, i) by {
        assert(some_chain_holds(cs0, i));
        let (k0, t0): (int, int) = choose|k0: int, t0: int|
            #![trigger cs0[k0][t0]]
            0 <= k0 < cs0.len() && 0 <= t0 < cs0[k0].len() && cs0[k0][t0] == i;
        if k0 == k {
            if t0 <= t {
                assert(cs[k][t0] == left_c[t0]);
                assert(cs[k][t0] == i);
            } else {
                assert(cs[cs0.len() as int][t0 - t - 1] == right_c[t0 - t - 1]);
                assert(cs[cs0.len() as int][t0 - t - 1] == i);
            }
        } else {
            assert(cs[k0] == cs0[k0]);
            assert(cs[k0][t0] == i);
        }
    }
    assert forall|k1: int, t1: int, k2: int, t2: int|
        #![trigger cs[k1][t1], cs[k2][t2]]
        0 <= k1 < cs.len() && 0 <= t1 < cs[k1].len() && 0 <= k2 < cs.len() && 0 <= t2
            < cs[k2].len() && cs[k1][t1] == cs[k2][t2] implies k1 == k2 && t1 == t2 by {
        let (ka1, ta1): (int, int) = if k1 == k {
            (k, t1)
        } else if k1 == cs0.len() as int {
            (k, t1 + t + 1)
        } else {
            (k1, t1)
        };
        let (ka2, ta2): (int, int) = if k2 == k {
            (k, t2)
        } else if k2 == cs0.len() as int {
            (k, t2 + t + 1)
        } else {
            (k2, t2)
        };
        assert(cs0[ka1][ta1] == cs[k1][t1]);
        assert(cs0[ka2][ta2] == cs[k2][t2]);
        assert(ka1 == ka2 && ta1 == ta2);
    }
}

/// Length of a particle's byte sequence.
pub open spec fn chars_weight(p: Particle) -> int {
    p.chars.len() as int
}

/// Score of the outgoing edge of a particle, 0 when unlinked.
pub open spec fn edge_cost(p: Particle) -> int {
    match p.next {
        Ok(nx) => nx.edge.spec_score(),
        Err(_) => 0,
    }
}

/// Padding length of an edge, 0 for an overlap.
pub open spec fn pad_of(e: Edge) -> int {
    match e {
        Edge::Overlapped(_) => 0,
        Edge::Padded { padding } => padding.len() as int,
    }
}

/// Padding length of the outgoing edge of a particle, 0 otherwise.
pub open spec fn edge_pad(p: Particle) -> int {
    match p.next {
        Ok(nx) => pad_of(nx.edge),
        Err(_) => 0,
    }
}

pub open spec fn sum_chars(ps: Seq<Particle>) -> int
    decreases ps.len(),
{
    if ps.len() == 0 {
        0
    } else {
        sum_chars(ps.drop_last()) + chars_weight(ps.last())
    }
}

pub open spec fn sum_costs(ps: Seq<Particle>) -> int
    decreases ps.len(),
{
    if ps.len() == 0 {
        0
    } else {
        sum_costs(ps.drop_last()) + edge_cost(ps.last())
    }
}

pub open spec fn sum_pads(ps: Seq<Particle>) -> int
    decreases ps.len(),
{
    if ps.len() == 0 {
        0
    } else {
        sum_pads(ps.drop_last()) + edge_pad(ps.last())
    }
}

/// Changing one particle shifts each sum by the difference at that index.
pub proof fn lemma_sums_update(ps1: Seq<Particle>, ps2: Seq<Particle>, i: int)
    requires
        ps1.len() == ps2.len(),
        0 <= i < ps1.len(),
        forall|j: int| 0 <= j < ps1.len() && j != i ==> ps1[j] == ps2[j],
    ensures
        sum_chars(ps2) == sum_chars(ps1) + chars_weight(ps2[i]) - chars_weight(ps1[i]),
        sum_costs(ps2) == sum_costs(ps1) + edge_cost(ps2[i]) - edge_cost(ps1[i]),
        sum_pads(ps2) == sum_pads(ps1) + edge_pad(ps2[i]) - edge_pad(ps1[i]),
    decreases ps1.len(),
{
    if i == ps1.len() - 1 {
        assert(ps1.drop_last() =~= ps2.drop_last());
    } else {
        lemma_sums_update(ps1.drop_last(), ps2.drop_last(), i);
        assert(ps1.last() == ps2.last());
    }
}

/// Appending a particle adds its weights to each sum.
pub proof fn lemma_sums_push(ps: Seq<Particle>, p: Particle)
    ensures
        sum_chars(ps.push(p)) == sum_chars(ps) + chars_weight(p),
        sum_costs(ps.push(p)) == sum_costs(ps) + edge_cost(p),
        sum_pads(ps.push(p)) == sum_pads(ps) + edge_pad(p),
{
    assert(ps.push(p).drop_last() =~= ps);
    assert(ps.push(p).last() == p);
}

/// The character sum and the padding sum are never negative.
pub proof fn lemma_sums_nonneg(ps: Seq<Particle>)
    ensures
        sum_chars(ps) >= 0,
        sum_pads(ps) >= 0,
    decreases ps.len(),
{
    if ps.len() > 0 {
        lemma_sums_nonneg(ps.drop_last());
    }
}

/// Laying the next edge of a run extends the linked prefix by one.
#[verifier::spinoff_prover]
proof fn lemma_run_shape_step(
    pt: Seq<u8>,
    ps0: Seq<Particle>,
    ps2: Seq<Particle>,
    orig: Seq<Particle>,
    sl: Seq<(usize, usize)>,
    k: int,
    e: Edge,
)
    requires
        0 <= k < sl.len() - 1,
        ps0.len() == sl.len(),
        ps2.len() == sl.len(),
        orig.len() == sl.len(),
        forall|t: int, t2: int| 0 <= t < t2 < sl.len() ==> sl[t].1 != sl[t2].1,
        forall|kk: int| #![trigger sl[kk]] 0 <= kk < sl.len() ==> sl[kk].1 < sl.len(),
        forall|t: int| 0 <= t < sl.len() ==> #[trigger] State::run_shape(pt, ps0, orig, sl, k, t),
        edge_ok(ps0[sl[k].1 as int].chars@, e, ps0[sl[k + 1].1 as int].chars@),
        edge_matches_span(pt, e, sl[k].0 + ps0[sl[k].1 as int].chars@.len(), sl[k + 1].0 as int),
        forall|i: int| 0 <= i < ps2.len() ==> (#[trigger] ps2[i]).chars == ps0[i].chars,
        forall|i: int|
            0 <= i < ps2.len() ==> (#[trigger] ps2[i]).next == (if i == sl[k].1 as int {
                Ok::<Next, NoNext>(Next { next_idx: sl[k + 1].1, edge: e })
            } else {
                ps0[i].next
            }),
        forall|i: int|
            0 <= i < ps2.len() ==> (#[trigger] ps2[i]).prev == (if i == sl[k + 1].1 as int {
                Ok::<Prev, NoPrev>(Prev { prev_idx: sl[k].1 })
            } else {
                ps0[i].prev
            }),
    ensures
        forall|t: int|
            0 <= t < sl.len() ==> #[trigger] State::run_shape(pt, ps2, orig, sl, k + 1, t),
{
    let n = sl.len() as int;
    let ia = sl[k].1;
    let ib = sl[k + 1].1;
    assert forall|t: int|
        0 <= t < n implies #[trigger] State::run_shape(pt, ps2, orig, sl, k + 1, t) by {
        assert(State::run_shape(pt, ps0, orig, sl, k, t));
        if 1 <= t {
            assert(State::run_shape(pt, ps0, orig, sl, k, t - 1));
        }
        if t + 1 < n {
            assert(State::run_shape(pt, ps0, orig, sl, k, t + 1));
        }
        if sl[t].1 == ia {
            assert(t == k);
        } else if sl[t].1 == ib {
            assert(t == k + 1);
        } else {
            assert(ps2[sl[t].1 as int] == ps0[sl[t].1 as int]);
        }
    }
}

/// Summing pointwise bounds: when every edge costs at least the negated
/// length of its particle and at most its padding, the score is between
/// zero and the bulk.
pub proof fn lemma_sums_bounded(ps: Seq<Particle>)
    requires
        forall|i: int|
            0 <= i < ps.len() ==> -chars_weight(#[trigger] ps[i]) <= edge_cost(ps[i])
                && edge_cost(ps[i]) <= edge_pad(ps[i]),
    ensures
        0 <= sum_chars(ps) + sum_costs(ps),
        sum_costs(ps) <= sum_pads(ps),
    decreases ps.len(),
{
    if ps.len() > 0 {
        assert forall|i: int|
            0 <= i < ps.drop_last().len() implies -chars_weight(#[trigger] ps.drop_last()[i])
            <= edge_cost(ps.drop_last()[i]) && edge_cost(ps.drop_last()[i]) <= edge_pad(
            ps.drop_last()[i],
        ) by {
            assert(ps.drop_last()[i] == ps[i]);
        }
        lemma_sums_bounded(ps.drop_last());
        assert(ps.last() == ps[ps.len() - 1]);
    }
}

/// In a state with valid links every edge satisfies the pointwise cost
/// bounds: an overlap is no longer than its left particle, and a padded
/// edge costs exactly its padding.
pub proof fn lemma_wf_cost_bounds(s: State)
    requires
        s.links_ok(),
    ensures
        forall|i: int|
            0 <= i < s.particles@.len() ==> -chars_weight(#[trigger] s.particles@[i])
                <= edge_cost(s.particles@[i]) && edge_cost(s.particles@[i]) <= edge_pad(
                s.particles@[i],
            ),
{
    reveal(State::links_ok);
    assert forall|i: int|
        0 <= i < s.particles@.len() implies -chars_weight(#[trigger] s.particles@[i])
        <= edge_cost(s.particles@[i]) && edge_cost(s.particles@[i]) <= edge_pad(
        s.particles@[i],
    ) by {
        let pi = s.particles@[i];
        if pi.next is Ok {
            assert(edge_ok(
                pi.chars@,
                pi.next->Ok_0.edge,
                s.particles@[pi.next->Ok_0.next_idx as int].chars@,
            ));
        }
    }
}

/// The bytes of the word `portmanteau`.
pub open spec fn portmanteau_prefix() -> Seq<u8> {
    seq![112u8, 111u8, 114u8, 116u8, 109u8, 97u8, 110u8, 116u8, 101u8, 97u8, 117u8]
}

/// A word fit to head the final chain: it begins with `portmanteau`.
pub open spec fn is_starticle_word(w: Seq<u8>) -> bool {
    portmanteau_prefix().is_prefix_of(w)
}

/// Check whether a word begins with the bytes `portmanteau`.
pub fn word_is_starticle(w: &Vec<u8>) -> (r: bool)
    ensures
        r == is_starticle_word(w@),
{
    let pm: Vec<u8> = vec![112u8, 111u8, 114u8, 116u8, 109u8, 97u8, 110u8, 116u8, 101u8, 97u8, 117u8];
    proof {
        assert(pm@ =~= portmanteau_prefix());
    }
    if w.len() < pm.len() {
        return false;
    }
    let mut i: usize = 0;
    while i < pm.len()
        invariant
            pm@ == portmanteau_prefix(),
            i <= pm.len(),
            pm.len() <= w.len(),
            forall|j: int| 0 <= j < i ==> w@[j] == pm@[j],
        decreases pm.len() - i,
    {
        if w[i] != pm[i] {
            proof {
                if is_starticle_word(w@) {
                    assert(pm@[i as int] == w@.subrange(0, pm@.len() as int)[i as int]);
                }
            }
            return false;
        }
        i += 1;
    }
    proof {
        assert(pm@ =~= w@.subrange(0, pm@.len() as int));
    }
    true
}

/// Total length of a list of words.
pub open spec fn sum_word_lens(ws: Seq<Vec<u8>>) -> int
    decreases ws.len(),
{
    if ws.len() == 0 {
        0
    } else {
        sum_word_lens(ws.drop_last()) + ws.last()@.len()
    }
}

/// One more word extends the running total by that word's length.
pub proof fn lemma_sum_word_lens_step(ws: Seq<Vec<u8>>, i: int)
    requires
        0 <= i < ws.len(),
    ensures
        sum_word_lens(ws.subrange(0, i + 1)) == sum_word_lens(ws.subrange(0, i)) + ws[i]@.len(),
{
    assert(ws.subrange(0, i + 1).drop_last() =~= ws.subrange(0, i));
    assert(ws.subrange(0, i + 1).last() == ws[i]);
}

/// Prefix totals grow with the prefix.
pub proof fn lemma_sum_word_lens_mono(ws: Seq<Vec<u8>>, a: int, b: int)
    requires
        0 <= a <= b <= ws.len(),
    ensures
        sum_word_lens(ws.subrange(0, a)) <= sum_word_lens(ws.subrange(0, b)),
    decreases b - a,
{
    if a < b {
        lemma_sum_word_lens_mono(ws, a, b - 1);
        lemma_sum_word_lens_step(ws, b - 1);
    }
}

/// The total over all words dominates any prefix total plus the next word.
pub proof fn lemma_sum_word_lens_bound(ws: Seq<Vec<u8>>, i: int)
    requires
        0 <= i < ws.len(),
    ensures
        sum_word_lens(ws) >= sum_word_lens(ws.subrange(0, i)) + ws[i]@.len(),
{
    lemma_sum_word_lens_step(ws, i);
    lemma_sum_word_lens_mono(ws, i + 1, ws.len() as int);
    assert(ws.subrange(0, ws.len() as int) =~= ws);
}

/// Structural validity of one overlap edge: the last `n` bytes of the left
/// particle equal the first `n` bytes of the right one. A padded edge only
/// caps its length so that its score fits a machine integer.
pub open spec fn edge_ok(left: Seq<u8>, e: Edge, right: Seq<u8>) -> bool {
    match e {
        Edge::Overlapped(n) => {
            &&& 1 <= n
            &&& n <= left.len()
            &&& n <= right.len()
            &&& left.subrange(left.len() - n, left.len() as int) == right.subrange(0, n as int)
        },
        Edge::Padded { padding } => padding.len() <= isize::MAX as usize,
    }
}

/// Copy the byte range `[a, b)` of `v`.
pub fn copy_range(v: &Vec<u8>, a: usize, b: usize) -> (r: Vec<u8>)
    requires
        a <= b && b <= v.len(),
    ensures
        r@ == v@.subrange(a as int, b as int),
{
    let mut r: Vec<u8> = Vec::new();
    let mut i: usize = a;
    while i < b
        invariant
            a <= i <= b <= v.len(),
            r@ =~= v@.subrange(a as int, i as int),
        decreases b - i,
    {
        r.push(v[i]);
        i += 1;
        proof {
            assert(v@.subrange(a as int, i as int) =~= v@.subrange(a as int, i - 1).push(
                v@[i - 1],
            ));
        }
    }
    proof {
        assert(r@ =~= v@.subrange(a as int, b as int));
    }
    r
}

/// How many trailing bytes are probed for a direct overlap.
pub open spec fn overlap_window(chars: Seq<u8>) -> int {
    if chars.len() < 3 {
        chars.len() as int
    } else {
        3
    }
}

/// How many trailing bytes are probed for a padded edge.
pub open spec fn padded_window(chars: Seq<u8>) -> int {
    if chars.len() < 11 {
        chars.len() as int
    } else {
        11
    }
}

/// Some chain head in `parts` begins with the last `n` bytes of `chars`.
pub open spec fn overlap_candidate(chars: Seq<u8>, parts: Map<Seq<u8>, usize>, n: int) -> bool {
    exists|k: Seq<u8>| #[trigger]
        parts.contains_key(k) && chars.subrange(chars.len() - n, chars.len() as int).is_prefix_of(k)
}

/// A padded way out of `chars`: a joiner word `w` begins with the last `sl`
/// bytes of `chars`, and some chain head `k` begins with `w[cut..]`. The
/// padding written between the particles is then `w[sl..cut]`.
pub open spec fn padded_choice(
    chars: Seq<u8>,
    words: Map<Seq<u8>, usize>,
    parts: Map<Seq<u8>, usize>,
    w: Seq<u8>,
    sl: int,
    cut: int,
    k: Seq<u8>,
) -> bool {
    &&& words.contains_key(w)
    &&& parts.contains_key(k)
    &&& 1 <= sl <= padded_window(chars)
    &&& sl <= cut < w.len()
    &&& w.subrange(0, sl) == chars.subrange(chars.len() - sl, chars.len() as int)
    &&& w.subrange(cut, w.len() as int).is_prefix_of(k)
}

/// The joiner words bridge every byte pair: for any last byte of one
/// particle and first byte of another, the two-byte word made of them is
/// present. Under this condition a zero-padding edge always exists, so
/// coalescing cannot run out of candidates.
pub open spec fn pair_word(a: u8, b: u8) -> Seq<u8> {
    seq![a, b]
}

pub open spec fn joiners_cover_pairs(words: Map<Seq<u8>, usize>) -> bool {
    forall|a: u8, b: u8| words.contains_key(#[trigger] pair_word(a, b))
}

/// With every byte pair bridged by a two-byte joiner, a zero-padding way
/// out of `chars` exists toward any stored head.
proof fn lemma_pair_gives_zero_choice(
    chars: Seq<u8>,
    words: Map<Seq<u8>, usize>,
    parts: Map<Seq<u8>, usize>,
    kk: Seq<u8>,
)
    requires
        joiners_cover_pairs(words),
        chars.len() >= 1,
        parts.contains_key(kk),
        kk.len() >= 1,
    ensures
        padded_choice(chars, words, parts, seq![chars[chars.len() - 1], kk[0]], 1, 1, kk),
{
    let w = seq![chars[chars.len() - 1], kk[0]];
    assert(w == pair_word(chars[chars.len() - 1], kk[0]));
    assert(words.contains_key(w));
    assert(w.subrange(0, 1) =~= chars.subrange(chars.len() - 1, chars.len() as int));
    assert(w.subrange(1, 2) =~= kk.subrange(0, 1));
    assert(w.subrange(1, 2).is_prefix_of(kk));
}

/// Everything `find_next` promises about its pick: an overlap edge is the
/// longest available in the probe window; a padded edge exists only when no
/// overlap does, follows a joiner word, and carries the shortest padding any
/// joiner offers; `None` means the tries offer no way out at all.
pub open spec fn find_next_post(
    chars: Seq<u8>,
    r: Option<Next>,
    words: Map<Seq<u8>, usize>,
    parts: Map<Seq<u8>, usize>,
) -> bool {
    match r {
        Some(nx) => match nx.edge {
            Edge::Overlapped(n) => {
                &&& 1 <= n <= overlap_window(chars)
                &&& (exists|k: Seq<u8>| #[trigger]
                    parts.contains_key(k) && parts[k] == nx.next_idx && chars.subrange(
                        chars.len() - n,
                        chars.len() as int,
                    ).is_prefix_of(k))
                &&& (forall|m: int|
                    n < m <= overlap_window(chars) ==> !overlap_candidate(chars, parts, m))
            },
            Edge::Padded { padding } => {
                &&& (forall|m: int|
                    1 <= m <= overlap_window(chars) ==> !overlap_candidate(chars, parts, m))
                &&& (exists|w: Seq<u8>, sl: int, cut: int, k: Seq<u8>| #[trigger]
                    padded_choice(chars, words, parts, w, sl, cut, k) && parts[k] == nx.next_idx
                        && padding@ == w.subrange(sl, cut))
                &&& (forall|w: Seq<u8>, sl: int, cut: int, k: Seq<u8>|
                    padded_choice(chars, words, parts, w, sl, cut, k) ==> cut - sl
                        >= padding@.len())
            },
        },
        None => {
            &&& (forall|m: int|
                1 <= m <= overlap_window(chars) ==> !overlap_candidate(chars, parts, m))
            &&& (forall|w: Seq<u8>, sl: int, cut: int, k: Seq<u8>|
                !padded_choice(chars, words, parts, w, sl, cut, k))
        },
    }
}

/// Select the cheapest edge out of `particle`: first the longest direct
/// overlap of its last three bytes with a chain head, then the padded
/// bridge with the least padding that a joiner word allows.
pub fn find_next(particle: &Particle, words_trie: &ByteTrie, particles_trie: &ByteTrie) -> (r:
    Option<Next>)
    requires
        particle.chars.len() >= 1,
    ensures
        find_next_post(
            particle.chars@,
            r,
            trie_contents(*words_trie),
            trie_contents(*particles_trie),
        ),
{
    let ghost chars = particle.chars@;
    let ghost words = trie_contents(*words_trie);
    let ghost parts = trie_contents(*particles_trie);
    let len = particle.chars.len();
    let owin: usize = if len < 3 {
        len
    } else {
        3
    };
    let mut start_idx: usize = len - owin;
    while start_idx < len
        invariant
            chars == particle.chars@,
            parts == trie_contents(*particles_trie),
            len == chars.len(),
            1 <= len,
            owin == overlap_window(chars),
            len - owin <= start_idx <= len,
            forall|m: int|
                len - start_idx < m <= owin ==> !overlap_candidate(chars, parts, m),
        decreases len - start_idx,
    {
        let overlap = copy_range(&particle.chars, start_idx, len);
        match trie_first_descendant(particles_trie, &overlap) {
            Some(kv) => {
                let n = len - start_idx;
                proof {
                    assert(parts.contains_key(kv.0@) && parts[kv.0@] == kv.1 && chars.subrange(
                        len - n,
                        len as int,
                    ).is_prefix_of(kv.0@));
                }
                return Some(Next { next_idx: kv.1, edge: Edge::Overlapped(n) });
            },
            None => {
                proof {
                    assert forall|k: Seq<u8>| parts.contains_key(k) implies !chars.subrange(
                        len - (len - start_idx),
                        len as int,
                    ).is_prefix_of(k) by {
                        assert(!overlap@.is_prefix_of(k));
                    }
                    assert(!overlap_candidate(chars, parts, len - start_idx));
                }
            },
        }
        start_idx += 1;
    }
    assert(forall|m: int| 1 <= m <= owin ==> !overlap_candidate(chars, parts, m));

    let pwin: usize = if len < 11 {
        len
    } else {
        11
    };
    let mut best_padding: Option<Vec<u8>> = None;
    let mut best_next_idx: usize = 0;
    let mut sstart: usize = len - pwin;
    while sstart < len
        invariant
            chars == particle.chars@,
            words == trie_contents(*words_trie),
            parts == trie_contents(*particles_trie),
            len == chars.len(),
            1 <= len,
            owin == overlap_window(chars),
            pwin == padded_window(chars),
            len - pwin <= sstart <= len,
            forall|m: int| 1 <= m <= owin ==> !overlap_candidate(chars, parts, m),
            match best_padding {
                None => forall|w: Seq<u8>, sl: int, cut: int, k: Seq<u8>|
                    padded_choice(chars, words, parts, w, sl, cut, k) ==> sl <= len - sstart,
                Some(p) => {
                    &&& (exists|w: Seq<u8>, sl: int, cut: int, k: Seq<u8>| #[trigger]
                        padded_choice(chars, words, parts, w, sl, cut, k) && parts[k]
                            == best_next_idx && p@ == w.subrange(sl, cut))
                    &&& (forall|w: Seq<u8>, sl: int, cut: int, k: Seq<u8>|
                        padded_choice(chars, words, parts, w, sl, cut, k) && sl > len - sstart
                            ==> cut - sl >= p@.len())
                    &&& p@.len() >= 1
                },
            },
        decreases len - sstart,
    {
        let suffix_len = len - sstart;
        let suffix = copy_range(&particle.chars, sstart, len);
        let keys = trie_descendant_keys(words_trie, &suffix);
        let mut wi: usize = 0;
        while wi < keys.len()
            invariant
                chars == particle.chars@,
                words == trie_contents(*words_trie),
                parts == trie_contents(*particles_trie),
                len == chars.len(),
                1 <= len,
                pwin == padded_window(chars),
                len - pwin <= sstart < len,
                suffix_len == len - sstart,
                suffix@ == chars.subrange(sstart as int, len as int),
                wi <= keys.len(),
                owin == overlap_window(chars),
                forall|m: int| 1 <= m <= owin ==> !overlap_candidate(chars, parts, m),
                forall|j: int| #![trigger keys@[j]]
                    0 <= j < keys@.len() ==> words.contains_key(keys@[j]@) && suffix@.is_prefix_of(
                        keys@[j]@,
                    ),
                forall|w: Seq<u8>|
                    words.contains_key(w) && suffix@.is_prefix_of(w) ==> exists|j: int|
                        0 <= j < keys@.len() && keys@[j]@ == w,
                match best_padding {
                    None => (forall|w: Seq<u8>, sl: int, cut: int, k: Seq<u8>|
                        padded_choice(chars, words, parts, w, sl, cut, k) ==> sl <= suffix_len) && (
                    forall|j: int, cut: int, k: Seq<u8>|
                        0 <= j < wi ==> !padded_choice(
                            chars,
                            words,
                            parts,
                            keys@[j]@,
                            suffix_len as int,
                            cut,
                            k,
                        )),
                    Some(p) => {
                        &&& (exists|w: Seq<u8>, sl: int, cut: int, k: Seq<u8>| #[trigger]
                            padded_choice(chars, words, parts, w, sl, cut, k) && parts[k]
                                == best_next_idx && p@ == w.subrange(sl, cut))
                        &&& (forall|w: Seq<u8>, sl: int, cut: int, k: Seq<u8>|
                            padded_choice(chars, words, parts, w, sl, cut, k) && sl > suffix_len
                                ==> cut - sl >= p@.len())
                        &&& (forall|j: int, cut: int, k: Seq<u8>|
                            0 <= j < wi && padded_choice(
                                chars,
                                words,
                                parts,
                                keys@[j]@,
                                suffix_len as int,
                                cut,
                                k,
                            ) ==> cut - suffix_len >= p@.len())
                        &&& p@.len() >= 1
                    },
                },
            decreases keys.len() - wi,
        {
            let word = &keys[wi];
            let wlen = word.len();
            let mut cut = suffix_len;
            let mut done = false;
            while cut < wlen && !done
                invariant
                    chars == particle.chars@,
                    words == trie_contents(*words_trie),
                    parts == trie_contents(*particles_trie),
                    len == chars.len(),
                    1 <= len,
                    pwin == padded_window(chars),
                    len - pwin <= sstart < len,
                    suffix_len == len - sstart,
                    suffix@ == chars.subrange(sstart as int, len as int),
                    wi < keys.len(),
                    owin == overlap_window(chars),
                    forall|m: int| 1 <= m <= owin ==> !overlap_candidate(chars, parts, m),
                    word == keys@[wi as int],
                    wlen == word@.len(),
                    words.contains_key(word@),
                    suffix@.is_prefix_of(word@),
                    suffix_len <= cut <= wlen,
                    done ==> best_padding is Some,
                    done ==> best_padding->0@.len() <= cut - suffix_len,
                    match best_padding {
                        None => (forall|w: Seq<u8>, sl: int, cut2: int, k: Seq<u8>|
                            padded_choice(chars, words, parts, w, sl, cut2, k) ==> sl
                                <= suffix_len) && (forall|cut2: int, k: Seq<u8>|
                            suffix_len <= cut2 < cut ==> !padded_choice(
                                chars,
                                words,
                                parts,
                                word@,
                                suffix_len as int,
                                cut2,
                                k,
                            )) && (forall|j: int, cut2: int, k: Seq<u8>|
                            0 <= j < wi ==> !padded_choice(
                                chars,
                                words,
                                parts,
                                keys@[j]@,
                                suffix_len as int,
                                cut2,
                                k,
                            )),
                        Some(p) => {
                            &&& (exists|w: Seq<u8>, sl: int, cut2: int, k: Seq<u8>| #[trigger]
                                padded_choice(chars, words, parts, w, sl, cut2, k) && parts[k]
                                    == best_next_idx && p@ == w.subrange(sl, cut2))
                            &&& (forall|w: Seq<u8>, sl: int, cut2: int, k: Seq<u8>|
                                padded_choice(chars, words, parts, w, sl, cut2, k) && sl
                                    > suffix_len ==> cut2 - sl >= p@.len())
                            &&& (forall|cut2: int, k: Seq<u8>|
                                suffix_len <= cut2 < cut && padded_choice(
                                    chars,
                                    words,
                                    parts,
                                    word@,
                                    suffix_len as int,
                                    cut2,
                                    k,
                                ) ==> cut2 - suffix_len >= p@.len())
                            &&& (forall|j: int, cut2: int, k: Seq<u8>|
                                0 <= j < wi && padded_choice(
                                    chars,
                                    words,
                                    parts,
                                    keys@[j]@,
                                    suffix_len as int,
                                    cut2,
                                    k,
                                ) ==> cut2 - suffix_len >= p@.len())
                            &&& p@.len() >= 1
                        },
                    },
                decreases wlen - cut, (if done { 0int } else { 1int }),
            {
                let padding_len = cut - suffix_len;
                let stop = match &best_padding {
                    Some(p) => p.len() <= padding_len,
                    None => false,
                };
                if stop {
                    done = true;
                } else {
                    let tailv = copy_range(word, cut, wlen);
                    match trie_first_descendant(particles_trie, &tailv) {
                        Some(kv) => {
                            let pad = copy_range(word, suffix_len, cut);
                            proof {
                                assert(word@.subrange(0, suffix_len as int) =~= suffix@);
                                assert(padded_choice(
                                    chars,
                                    words,
                                    parts,
                                    word@,
                                    suffix_len as int,
                                    cut as int,
                                    kv.0@,
                                ));
                            }
                            if padding_len == 0 {
                                proof {
                                    assert forall|w: Seq<u8>, sl: int, cut2: int, k: Seq<u8>|
                                        padded_choice(
                                            chars,
                                            words,
                                            parts,
                                            w,
                                            sl,
                                            cut2,
                                            k,
                                        ) implies cut2 - sl >= pad@.len() by {}
                                }
                                return Some(
                                    Next { next_idx: kv.1, edge: Edge::Padded { padding: pad } },
                                );
                            }
                            best_padding = Some(pad);
                            best_next_idx = kv.1;
                        },
                        None => {
                            proof {
                                assert forall|k: Seq<u8>|
                                    padded_choice(
                                        chars,
                                        words,
                                        parts,
                                        word@,
                                        suffix_len as int,
                                        cut as int,
                                        k,
                                    ) implies false by {
                                    assert(word@.subrange(cut as int, wlen as int) == tailv@);
                                    assert(parts.contains_key(k) && tailv@.is_prefix_of(k));
                                }
                            }
                        },
                    }
                    cut += 1;
                }
            }
            proof {
                if done {
                    // every later cut of this word pads at least as much as
                    // the recorded best
                    assert forall|cut2: int, k: Seq<u8>|
                        padded_choice(
                            chars,
                            words,
                            parts,
                            word@,
                            suffix_len as int,
                            cut2,
                            k,
                        ) implies cut2 - suffix_len >= best_padding->0@.len() by {
                        if cut2 < cut {
                        } else {
                            assert(cut2 - suffix_len >= cut - suffix_len);
                        }
                    }
                } else {
                    assert(cut == wlen);
                }
            }
            wi += 1;
        }
        proof {
            // every joiner word beginning with this suffix sits in `keys`,
            // so all choices at this suffix length are now accounted for
            match &best_padding {
                None => {
                    assert forall|w: Seq<u8>, sl: int, cut: int, k: Seq<u8>|
                        padded_choice(chars, words, parts, w, sl, cut, k) implies sl <= len - (
                    sstart + 1) by {
                        if sl == suffix_len {
                            assert(w.subrange(0, sl) == chars.subrange(len - sl, len as int));
                            assert(suffix@.is_prefix_of(w));
                            let j = choose|j: int| 0 <= j < keys@.len() && keys@[j]@ == w;
                            assert(!padded_choice(
                                chars,
                                words,
                                parts,
                                keys@[j]@,
                                suffix_len as int,
                                cut,
                                k,
                            ));
                        }
                    }
                },
                Some(p) => {
                    assert forall|w: Seq<u8>, sl: int, cut: int, k: Seq<u8>|
                        padded_choice(chars, words, parts, w, sl, cut, k) && sl > len - (sstart
                            + 1) implies cut - sl >= p@.len() by {
                        if sl == suffix_len {
                            assert(w.subrange(0, sl) == chars.subrange(len - sl, len as int));
                            assert(suffix@.is_prefix_of(w));
                            let j = choose|j: int| 0 <= j < keys@.len() && keys@[j]@ == w;
                            assert(keys@[j]@ == w);
                        }
                    }
                },
            }
        }
        sstart += 1;
    }
    match best_padding {
        None => {
            proof {
                assert forall|w: Seq<u8>, sl: int, cut: int, k: Seq<u8>| !padded_choice(
                    chars,
                    words,
                    parts,
                    w,
                    sl,
                    cut,
                    k,
                ) by {
                    if padded_choice(chars, words, parts, w, sl, cut, k) {
                        assert(sl <= len - len);
                    }
                }
            }
            None
        },
        Some(pad) => {
            proof {
                assert forall|w: Seq<u8>, sl: int, cut: int, k: Seq<u8>|
                    padded_choice(chars, words, parts, w, sl, cut, k) implies cut - sl
                    >= pad@.len() by {
                    assert(sl > len - len);
                }
            }
            Some(Next { next_idx: best_next_idx, edge: Edge::Padded { padding: pad } })
        },
    }
}

/// Position of the first occurrence of `needle` in `haystack`, if any.
pub fn find_first_occurrence(haystack: &Vec<u8>, needle: &Vec<u8>) -> (r: Option<usize>)
    ensures
        match r {
            Some(i) => matches_at(haystack@, needle@, i as int) && forall|j: int|
                0 <= j < i ==> !matches_at(haystack@, needle@, j),
            None => forall|j: int| !matches_at(haystack@, needle@, j),
        },
{
    if needle.len() > haystack.len() {
        assert(forall|j: int| !matches_at(haystack@, needle@, j));
        return None;
    }
    let bound: usize = haystack.len() - needle.len();
    let mut start: usize = 0;
    while start <= bound
        invariant
            needle.len() <= haystack.len(),
            bound == haystack.len() - needle.len(),
            start <= bound + 1,
            forall|j: int| 0 <= j < start ==> !matches_at(haystack@, needle@, j),
        decreases bound + 1 - start,
    {
        let mut idx: usize = 0;
        while idx < needle.len() && needle[idx] == haystack[start + idx]
            invariant
                idx <= needle.len(),
                start + needle.len() <= haystack.len(),
                forall|j: int| 0 <= j < idx ==> haystack@[start + j] == needle@[j],
            decreases needle.len() - idx,
        {
            idx += 1;
        }
        if idx == needle.len() {
            proof {
                assert(haystack@.subrange(start as int, start + needle@.len() as int)
                    =~= needle@);
            }
            return Some(start);
        }
        proof {
            assert(haystack@[start + idx] != needle@[idx as int]);
            if matches_at(haystack@, needle@, start as int) {
                assert(haystack@.subrange(start as int, start + needle@.len() as int)[idx as int]
                    == needle@[idx as int]);
            }
        }
        start += 1;
    }
    assert(forall|j: int| !matches_at(haystack@, needle@, j));
    None
}

/// Record `k` of `sl` was present in `orig`.
pub open spec fn record_from(sl: Seq<(usize, usize)>, orig: Seq<(usize, usize)>, k: int) -> bool {
    exists|k2: int| 0 <= k2 < orig.len() && sl[k] == #[trigger] orig[k2]
}

/// Some record of `sl` names particle `j`.
pub open spec fn index_appears(sl: Seq<(usize, usize)>, j: int) -> bool {
    exists|t: int| 0 <= t < sl.len() && #[trigger] sl[t].1 as int == j
}

/// The particle indices of a run of occurrence records, in run order.
pub open spec fn order_indices(sl: Seq<(usize, usize)>) -> Seq<int> {
    Seq::new(sl.len(), |t: int| sl[t].1 as int)
}

/// How an edge relates two occurrence spans of the rendered bytes: an
/// overlap of exactly the overrun where the spans cross, otherwise
/// padding equal to the bytes between them.
pub open spec fn edge_matches_span(pt: Seq<u8>, e: Edge, a_end: int, b_start: int) -> bool {
    match e {
        Edge::Overlapped(n) => b_start < a_end && n as int == a_end - b_start,
        Edge::Padded { padding } => a_end <= b_start && padding@ == pt.subrange(a_end, b_start),
    }
}

/// The particles are linked along the run `sl`: each record's particle
/// points to the next record's, with the edge their two spans dictate.
pub open spec fn linked_along(pt: Seq<u8>, ps: Seq<Particle>, sl: Seq<(usize, usize)>) -> bool {
    forall|t: int| #![trigger sl[t]]
        0 <= t < sl.len() - 1 ==> {
            &&& ps[sl[t].1 as int].next is Ok
            &&& ps[sl[t].1 as int].next->Ok_0.next_idx == sl[t + 1].1
            &&& edge_matches_span(
                pt,
                ps[sl[t].1 as int].next->Ok_0.edge,
                sl[t].0 + ps[sl[t].1 as int].chars@.len(),
                sl[t + 1].0 as int,
            )
        }
}

/// How a successful resume lays the chain out: one record per particle,
/// each at the first occurrence of its particle's bytes, ordered by
/// position; the particles are linked along that order with the edges
/// the positions dictate, and the earliest record's particle heads the
/// single rebuilt chain.
pub open spec fn resume_layout(
    pt: Seq<u8>,
    orig: Seq<Particle>,
    s: State,
    sl: Seq<(usize, usize)>,
) -> bool {
    &&& sl.len() == orig.len()
    &&& forall|j: int| 0 <= j < sl.len() ==> #[trigger] index_appears(sl, j)
    &&& forall|k: int| #![trigger sl[k]]
        0 <= k < sl.len() ==> {
            &&& sl[k].1 < orig.len()
            &&& matches_at(pt, orig[sl[k].1 as int].chars@, sl[k].0 as int)
            &&& (forall|j: int|
                0 <= j < sl[k].0 ==> !matches_at(pt, orig[sl[k].1 as int].chars@, j))
        }
    &&& forall|k: int, l: int| 0 <= k < l < sl.len() ==> sl[k].0 <= sl[l].0
    &&& (sl.len() >= 1 ==> s.starticle_idx == sl[0].1)
    &&& s.chains@ == seq![order_indices(sl)]
    &&& linked_along(pt, s.particles@, sl)
}

/// Sort occurrence records by their start position; the records are
/// rearranged and nothing else: the multiset of records is unchanged.
fn sort_by_start(v: &mut Vec<(usize, usize)>)
    ensures
        final(v)@.len() == old(v)@.len(),
        forall|k: int, l: int|
            0 <= k < l < final(v)@.len() ==> final(v)@[k].0 <= final(v)@[l].0,
        forall|k: int| 0 <= k < final(v)@.len() ==> record_from(final(v)@, old(v)@, k),
        final(v)@.to_multiset() == old(v)@.to_multiset(),
{
    let ghost orig = v@;
    let n = v.len();
    proof {
        assert forall|k: int| 0 <= k < n implies record_from(v@, orig, k) by {
            assert(v@[k] == orig[k]);
        }
    }
    if n < 2 {
        return;
    }
    let mut i: usize = 1;
    while i < n
        invariant
            n == v@.len(),
            n == orig.len(),
            1 <= i || n <= 1,
            i <= n,
            forall|k: int, l: int| 0 <= k < l < i ==> v@[k].0 <= v@[l].0,
            forall|k: int| 0 <= k < n ==> record_from(v@, orig, k),
            v@.to_multiset() == orig.to_multiset(),
        decreases n - i,
    {
        let mut j: usize = i;
        while j > 0 && v[j - 1].0 > v[j].0
            invariant
                n == v@.len(),
                n == orig.len(),
                j <= i < n,
                forall|k: int, l: int|
                    0 <= k < l <= i && l != j ==> v@[k].0 <= v@[l].0,
                forall|k: int| 0 <= k < n ==> record_from(v@, orig, k),
                v@.to_multiset() == orig.to_multiset(),
            decreases j,
        {
            let ghost before = v@;
            let a = v[j - 1];
            let b = v[j];
            v.set(j - 1, b);
            v.set(j, a);
            proof {
                // a swap rearranges the records without changing them
                broadcast use vstd::seq_lib::group_to_multiset_ensures;
                broadcast use vstd::multiset::group_multiset_axioms;
                broadcast use vstd::multiset::group_multiset_properties;

                let s1 = before.update(j - 1, b);
                assert(v@ == s1.update(j as int, a));
                assert(s1[j as int] == b);
                assert(s1.to_multiset() == before.to_multiset().insert(b).remove(a));
                assert(v@.to_multiset() == s1.to_multiset().insert(a).remove(b));
                assert(before.contains(a));
                assert(before.to_multiset().count(a) > 0);
                assert(v@.to_multiset() =~= before.to_multiset());
                assert forall|k: int| 0 <= k < n implies record_from(v@, orig, k) by {
                    if k == j - 1 {
                        assert(record_from(before, orig, j as int));
                        assert(v@[k] == before[j as int]);
                    } else if k == j {
                        assert(record_from(before, orig, j - 1));
                        assert(v@[k] == before[j - 1]);
                    } else {
                        assert(record_from(before, orig, k));
                        assert(v@[k] == before[k]);
                    }
                }
            }
            j -= 1;
        }
        i += 1;
    }
}

/// Removing position `i` of a duplicate-free sequence by swapping in the
/// last entry keeps the entries distinct and drops exactly the value at `i`.
pub proof fn lemma_swap_remove_distinct(s: Seq<usize>, i: int)
    requires
        0 <= i < s.len(),
        forall|k: int, l: int| 0 <= k < l < s.len() ==> s[k] != s[l],
    ensures
        ({
            let t = s.update(i, s.last()).drop_last();
            &&& forall|k: int, l: int| 0 <= k < l < t.len() ==> t[k] != t[l]
            &&& forall|x: usize| t.contains(x) <==> (s.contains(x) && x != s[i])
        }),
{
    let t = s.update(i, s.last()).drop_last();
    assert(forall|k: int|
        0 <= k < t.len() ==> t[k] == (if k == i {
            s[s.len() - 1]
        } else {
            s[k]
        }));
    assert forall|x: usize| t.contains(x) implies (s.contains(x) && x != s[i]) by {
        let k = choose|k: int| 0 <= k < t.len() && t[k] == x;
        if k == i {
            assert(s[s.len() - 1] == x);
        } else {
            assert(s[k] == x);
        }
    }
    assert forall|x: usize| s.contains(x) && x != s[i] implies t.contains(x) by {
        let k = choose|k: int| 0 <= k < s.len() && s[k] == x;
        if k == s.len() - 1 {
            assert(i < s.len() - 1);
            assert(t[i] == x);
        } else {
            assert(t[k] == x);
        }
    }
}

/// Replace the right link of one particle, leaving its bytes and left link
/// in place.
fn set_next(particles: &mut Vec<Particle>, i: usize, next: Result<Next, NoNext>)
    requires
        i < old(particles).len(),
    ensures
        final(particles)@ == old(particles)@.update(
            i as int,
            (Particle {
                chars: old(particles)@[i as int].chars,
                next: next,
                prev: old(particles)@[i as int].prev,
            }),
        ),
{
    let mut tmp = Particle::new(Vec::new(), 0);
    particles.set_and_swap(i, &mut tmp);
    tmp.next = next;
    particles.set_and_swap(i, &mut tmp);
    proof {
        assert(particles@ =~= old(particles)@.update(
            i as int,
            (Particle {
                chars: old(particles)@[i as int].chars,
                next: particles@[i as int].next,
                prev: old(particles)@[i as int].prev,
            }),
        ));
    }
}

/// Replace the left link of one particle, leaving its bytes and right link
/// in place.
fn set_prev(particles: &mut Vec<Particle>, i: usize, prev: Result<Prev, NoPrev>)
    requires
        i < old(particles).len(),
    ensures
        final(particles)@ == old(particles)@.update(
            i as int,
            (Particle {
                chars: old(particles)@[i as int].chars,
                next: old(particles)@[i as int].next,
                prev: prev,
            }),
        ),
{
    let mut tmp = Particle::new(Vec::new(), 0);
    particles.set_and_swap(i, &mut tmp);
    tmp.prev = prev;
    particles.set_and_swap(i, &mut tmp);
    proof {
        assert(particles@ =~= old(particles)@.update(
            i as int,
            (Particle {
                chars: old(particles)@[i as int].chars,
                next: old(particles)@[i as int].next,
                prev: particles@[i as int].prev,
            }),
        ));
    }
}

/// A padded edge follows the joiner word `w`: the word is the left
/// particle's last `sl` bytes, then the padding, then `m >= 1` bytes that
/// begin the right particle.
pub open spec fn padded_edge_follows(
    left: Seq<u8>,
    padding: Seq<u8>,
    right: Seq<u8>,
    w: Seq<u8>,
) -> bool {
    exists|sl: int, m: int|
        #![trigger left.subrange(left.len() - sl, left.len() as int), right.subrange(0, m)]
        {
            &&& 1 <= sl <= left.len()
            &&& 1 <= m <= right.len()
            &&& w == left.subrange(left.len() - sl, left.len() as int) + padding + right.subrange(
                0,
                m,
            )
        }
}

/// If the particle at `i` carries a padded edge, some joiner word in
/// `words` justifies it.
pub open spec fn padded_edge_justified(ps: Seq<Particle>, i: int, words: Map<Seq<u8>, usize>) -> bool {
    match ps[i].next {
        Ok(nx) => match nx.edge {
            Edge::Padded { padding } => {
                &&& nx.next_idx < ps.len()
                &&& exists|w: Seq<u8>| #[trigger]
                    words.contains_key(w) && padded_edge_follows(
                        ps[i].chars@,
                        padding@,
                        ps[nx.next_idx as int].chars@,
                        w,
                    )
            },
            Edge::Overlapped(_) => true,
        },
        Err(_) => true,
    }
}

/// The particle trie used during coalescing mirrors `unconnected_on_left`:
/// each chain head is stored under its bytes, and nothing else is stored.
#[verifier::opaque]
pub open spec fn heads_trie_ok(s: State, pt: Map<Seq<u8>, usize>) -> bool {
    &&& forall|h: usize| #![trigger s.unconnected_on_left@.contains(h)]
        s.unconnected_on_left@.contains(h) ==> pt.contains_key(s.particles@[h as int].chars@)
            && pt[s.particles@[h as int].chars@] == h
    &&& forall|k: Seq<u8>| #![trigger pt.contains_key(k)]
        pt.contains_key(k) ==> pt[k] < s.particles@.len() && s.unconnected_on_left@.contains(
            pt[k],
        ) && s.particles@[pt[k] as int].chars@ == k
}

/// The bytes contributed by the chain that starts at `i`, walking right
/// for at most `fuel` links: each particle's bytes, shortened by its
/// overlap with the next particle or followed by its edge's padding.
pub open spec fn render_from(ps: Seq<Particle>, i: int, fuel: nat) -> Option<Seq<u8>>
    decreases fuel,
{
    if !(0 <= i < ps.len()) {
        None
    } else {
        match ps[i].next {
            Err(_) => Some(ps[i].chars@),
            Ok(nx) => {
                if fuel == 0 {
                    None
                } else {
                    match render_from(ps, nx.next_idx as int, (fuel - 1) as nat) {
                        None => None,
                        Some(rest) => match nx.edge {
                            Edge::Overlapped(n) => if n <= ps[i].chars@.len() {
                                Some(
                                    ps[i].chars@.subrange(0, ps[i].chars@.len() - n) + rest,
                                )
                            } else {
                                None
                            },
                            Edge::Padded { padding } => Some(ps[i].chars@ + padding@ + rest),
                        },
                    }
                }
            },
        }
    }
}

/// The portmantout a state denotes: the rendering of the chain headed by
/// the starticle. `None` only if the links loop instead of reaching a
/// chain end.
pub open spec fn spec_render(s: State) -> Option<Seq<u8>> {
    render_from(s.particles@, s.starticle_idx as int, s.particles@.len() as nat)
}

/// Rendered length of the chain `c` from position `t` onward: each
/// particle's bytes plus its edge cost, the tail's bytes alone.
pub open spec fn tail_weight(ps: Seq<Particle>, c: Seq<int>, t: int) -> int
    decreases c.len() - t,
{
    if t < 0 || t >= c.len() {
        0
    } else if t == c.len() - 1 {
        chars_weight(ps[c[t]])
    } else {
        chars_weight(ps[c[t]]) + edge_cost(ps[c[t]]) + tail_weight(ps, c, t + 1)
    }
}

/// Sum of each listed particle's bytes and edge cost.
pub open spec fn sum_fidx(ps: Seq<Particle>, idxs: Seq<int>) -> int
    decreases idxs.len(),
{
    if idxs.len() == 0 {
        0
    } else {
        chars_weight(ps[idxs[0]]) + edge_cost(ps[idxs[0]]) + sum_fidx(ps, idxs.drop_first())
    }
}

/// Walking a chain renders it: the bytes exist, and their count is the
/// chain's weight from that position.
proof fn lemma_render_along(ps: Seq<Particle>, c: Seq<int>, t: int, fuel: nat)
    requires
        chain_shape(ps, c),
        forall|i: int| #![trigger ps[i]]
            0 <= i < ps.len() ==> (ps[i].next is Ok ==> ps[i].next->Ok_0.next_idx < ps.len()
                && edge_ok(
                ps[i].chars@,
                ps[i].next->Ok_0.edge,
                ps[ps[i].next->Ok_0.next_idx as int].chars@,
            )),
        0 <= t < c.len(),
        fuel >= c.len() - 1 - t,
    ensures
        render_from(ps, c[t], fuel) is Some,
        render_from(ps, c[t], fuel)->0.len() == tail_weight(ps, c, t),
    decreases c.len() - t,
{
    if t == c.len() - 1 {
        assert(ps[c[t]].next is Err);
    } else {
        assert(ps[c[t]].next is Ok && ps[c[t]].next->Ok_0.next_idx as int == c[t + 1]);
        assert(fuel >= 1);
        lemma_render_along(ps, c, t + 1, (fuel - 1) as nat);
        let nxt = ps[c[t]].next->Ok_0;
        assert(edge_ok(ps[c[t]].chars@, nxt.edge, ps[c[t + 1]].chars@));
    }
}

/// A chain's weight from position `t` is the plain sum over the rest of
/// its members: the tail contributes no edge cost either way.
proof fn lemma_tail_weight_sum(ps: Seq<Particle>, c: Seq<int>, t: int)
    requires
        chain_shape(ps, c),
        0 <= t < c.len(),
    ensures
        tail_weight(ps, c, t) == sum_fidx(ps, c.subrange(t, c.len() as int)),
    decreases c.len() - t,
{
    let sub = c.subrange(t, c.len() as int);
    assert(sub.len() == c.len() - t);
    assert(sub[0] == c[t]);
    if t == c.len() - 1 {
        assert(ps[c[t]].next is Err);
        assert(edge_cost(ps[c[t]]) == 0);
        assert(sub.drop_first() =~= Seq::<int>::empty());
        assert(sum_fidx(ps, sub.drop_first()) == 0);
        assert(sum_fidx(ps, sub) == chars_weight(ps[c[t]]) + edge_cost(ps[c[t]]));
    } else {
        lemma_tail_weight_sum(ps, c, t + 1);
        assert(sub.drop_first() =~= c.subrange(t + 1, c.len() as int));
    }
}

/// Dropping one listed index drops exactly its weight from the sum.
proof fn lemma_sum_fidx_remove(ps: Seq<Particle>, idxs: Seq<int>, j: int)
    requires
        0 <= j < idxs.len(),
    ensures
        sum_fidx(ps, idxs) == sum_fidx(ps, idxs.remove(j)) + chars_weight(ps[idxs[j]])
            + edge_cost(ps[idxs[j]]),
    decreases idxs.len(),
{
    if j == 0 {
        assert(idxs.remove(0) =~= idxs.drop_first());
    } else {
        lemma_sum_fidx_remove(ps, idxs.drop_first(), j - 1);
        assert(idxs.remove(j).drop_first() =~= idxs.drop_first().remove(j - 1));
        assert(idxs.remove(j)[0] == idxs[0]);
        assert(idxs.drop_first()[j - 1] == idxs[j]);
    }
}

/// Indices below the last particle weigh the same without it.
proof fn lemma_sum_fidx_drop_last(ps: Seq<Particle>, idxs: Seq<int>)
    requires
        ps.len() >= 1,
        forall|t: int| 0 <= t < idxs.len() ==> 0 <= #[trigger] idxs[t] < ps.len() - 1,
    ensures
        sum_fidx(ps, idxs) == sum_fidx(ps.drop_last(), idxs),
    decreases idxs.len(),
{
    if idxs.len() > 0 {
        assert(ps.drop_last()[idxs[0]] == ps[idxs[0]]);
        assert forall|t: int|
            0 <= t < idxs.drop_first().len() implies 0 <= #[trigger] idxs.drop_first()[t]
            < ps.len() - 1 by {
            assert(idxs.drop_first()[t] == idxs[t + 1]);
        }
        lemma_sum_fidx_drop_last(ps, idxs.drop_first());
    }
}

/// Summing over a permutation of all the indices gives the state totals.
proof fn lemma_sum_fidx_permutation(ps: Seq<Particle>, c: Seq<int>)
    requires
        forall|t: int| 0 <= t < c.len() ==> 0 <= #[trigger] c[t] < ps.len(),
        forall|t1: int, t2: int| 0 <= t1 < t2 < c.len() ==> c[t1] != c[t2],
        forall|i: int| 0 <= i < ps.len() ==> c.contains(i),
    ensures
        sum_fidx(ps, c) == sum_chars(ps) + sum_costs(ps),
    decreases ps.len(),
{
    if ps.len() == 0 {
        if c.len() > 0 {
            assert(0 <= c[0] < 0);
        }
    } else {
        let m = ps.len() - 1;
        assert(c.contains(m));
        let j = choose|j: int| 0 <= j < c.len() && c[j] == m;
        lemma_sum_fidx_remove(ps, c, j);
        let c2 = c.remove(j);
        assert(c2.len() == c.len() - 1);
        assert forall|t: int| 0 <= t < c2.len() implies 0 <= #[trigger] c2[t] < m by {
            if t < j {
                assert(c2[t] == c[t]);
                if c[t] == m {
                    assert(c[t] == c[j]);
                    assert(false);
                }
            } else {
                assert(c2[t] == c[t + 1]);
                if c[t + 1] == m {
                    assert(c[j] == c[t + 1]);
                    assert(false);
                }
            }
        }
        assert forall|t1: int, t2: int| 0 <= t1 < t2 < c2.len() implies c2[t1] != c2[t2] by {
            let u1 = if t1 < j {
                t1
            } else {
                t1 + 1
            };
            let u2 = if t2 < j {
                t2
            } else {
                t2 + 1
            };
            assert(c2[t1] == c[u1] && c2[t2] == c[u2]);
        }
        assert forall|i: int| 0 <= i < m implies c2.contains(i) by {
            assert(c.contains(i));
            let t = choose|t: int| 0 <= t < c.len() && c[t] == i;
            assert(t != j);
            if t < j {
                assert(c2[t] == i);
            } else {
                assert(c2[t - 1] == i);
            }
        }
        lemma_sum_fidx_drop_last(ps, c2);
        lemma_sum_fidx_permutation(ps.drop_last(), c2);
        assert(ps.drop_last().len() == m);
        assert(sum_chars(ps) == sum_chars(ps.drop_last()) + chars_weight(ps[m]));
        assert(sum_costs(ps) == sum_costs(ps.drop_last()) + edge_cost(ps[m]));
    }
}

/// Any well-formed state renders: the walk from the starticle reaches
/// its chain's tail before the fuel runs out. (law)
pub proof fn lemma_wf_renders(s: State)
    requires
        s.wf(),
    ensures
        spec_render(s) is Some,
{
    let (ks, ts) = lemma_find_chain(s, s.starticle_idx as int);
    assert(ts == 0);
    reveal(chains_partition);
    let c = s.chains@[ks];
    assert(chain_shape(s.particles@, c));
    assert forall|t1: int, t2: int| 0 <= t1 < t2 < c.len() implies c[t1] != c[t2] by {
        if c[t1] == c[t2] {
            assert(s.chains@[ks][t1] == s.chains@[ks][t2]);
        }
    }
    lemma_distinct_in_range_bound(c, s.particles@.len() as int);
    reveal(State::links_ok);
    lemma_render_along(s.particles@, c, 0, s.particles@.len() as nat);
    assert(c[0] == s.starticle_idx as int);
}

/// When a single chain holds every particle — as after a completed
/// coalescing pass — the state renders, and the rendered portmantout's
/// length is exactly the score. (law)
pub proof fn lemma_render_score(s: State)
    requires
        s.wf(),
        s.chains@.len() == 1,
    ensures
        spec_render(s) is Some,
        spec_render(s)->0.len() == s.score,
{
    lemma_wf_renders(s);
    let (ks, ts) = lemma_find_chain(s, s.starticle_idx as int);
    assert(ks == 0 && ts == 0);
    reveal(chains_partition);
    let ps = s.particles@;
    let c = s.chains@[0];
    assert(chain_shape(ps, c));
    assert forall|t1: int, t2: int| 0 <= t1 < t2 < c.len() implies c[t1] != c[t2] by {
        if c[t1] == c[t2] {
            assert(s.chains@[0][t1] == s.chains@[0][t2]);
        }
    }
    assert forall|i: int| 0 <= i < ps.len() implies c.contains(i) by {
        assert(some_chain_holds(s.chains@, i));
        let (k, t): (int, int) = choose|k: int, t: int|
            #![trigger s.chains@[k][t]]
            0 <= k < s.chains@.len() && 0 <= t < s.chains@[k].len() && s.chains@[k][t] == i;
        assert(k == 0);
        assert(c[t] == i);
    }
    lemma_distinct_in_range_bound(c, ps.len() as int);
    reveal(State::links_ok);
    lemma_render_along(ps, c, 0, ps.len() as nat);
    lemma_tail_weight_sum(ps, c, 0);
    assert(c.subrange(0, c.len() as int) =~= c);
    lemma_sum_fidx_permutation(ps, c);
    assert(c[0] == s.starticle_idx as int);
}

impl State {
    /// All indices stored anywhere point into the particle array, the
    /// `next`/`prev` links agree, every particle is non-empty and no longer
    /// than a machine integer, and every overlap edge is byte-valid.
    #[verifier::opaque]
    pub open spec fn links_ok(self) -> bool {
        forall|i: int| #![trigger self.particles@[i]] 0 <= i < self.particles.len() ==> {
            let pi = self.particles@[i];
            &&& pi.chars.len() >= 1
            &&& pi.chars.len() <= isize::MAX as usize
            &&& (pi.next is Ok ==> {
                &&& pi.next->Ok_0.next_idx < self.particles.len()
                &&& self.particles@[pi.next->Ok_0.next_idx as int].prev == Ok::<Prev, NoPrev>(
                    Prev { prev_idx: i as usize },
                )
                &&& edge_ok(
                    pi.chars@,
                    pi.next->Ok_0.edge,
                    self.particles@[pi.next->Ok_0.next_idx as int].chars@,
                )
            })
            &&& (pi.next is Err ==> pi.next->Err_0.chain_start_idx < self.particles.len())
            &&& (pi.prev is Ok ==> {
                &&& pi.prev->Ok_0.prev_idx < self.particles.len()
                &&& self.particles@[pi.prev->Ok_0.prev_idx as int].next is Ok
                &&& self.particles@[pi.prev->Ok_0.prev_idx as int].next->Ok_0.next_idx == i
            })
            &&& (pi.prev is Err ==> pi.prev->Err_0.chain_end_idx < self.particles.len())
        }
    }

    /// No two particles hold the same byte sequence.
    pub open spec fn distinct_chars(self) -> bool {
        forall|i: int, j: int|
            0 <= i < j < self.particles.len()
                ==> self.particles@[i].chars@ != self.particles@[j].chars@
    }

    /// `unconnected_on_right` lists, without repetition, exactly the
    /// particles whose `next` is unset.
    #[verifier::opaque]
    pub open spec fn uor_ok(self) -> bool {
        &&& forall|k: int, l: int|
            0 <= k < l < self.unconnected_on_right.len()
                ==> self.unconnected_on_right@[k] != self.unconnected_on_right@[l]
        &&& forall|k: int| #![trigger self.unconnected_on_right@[k]]
            0 <= k < self.unconnected_on_right.len() ==> {
                &&& self.unconnected_on_right@[k] < self.particles.len()
                &&& self.particles@[self.unconnected_on_right@[k] as int].next is Err
            }
        &&& forall|i: int|
            0 <= i < self.particles.len() && self.particles@[i].next is Err
                ==> self.unconnected_on_right@.contains(i as usize)
    }

    /// `unconnected_on_left` holds exactly the non-starticle particles whose
    /// `prev` is unset.
    #[verifier::opaque]
    pub open spec fn uol_ok(self) -> bool {
        &&& self.unconnected_on_left@.finite()
        &&& forall|x: usize| #![trigger self.unconnected_on_left@.contains(x)]
            self.unconnected_on_left@.contains(x) ==> {
                &&& x < self.particles.len()
                &&& x != self.starticle_idx
                &&& self.particles@[x as int].prev is Err
            }
        &&& forall|i: int|
            0 <= i < self.particles.len() && i != self.starticle_idx
                && self.particles@[i].prev is Err ==> self.unconnected_on_left@.contains(i as usize)
    }

    /// There is always exactly one more right endpoint than entries in
    /// `unconnected_on_left`: the tail of the starticle's chain.
    pub open spec fn counts_ok(self) -> bool {
        self.unconnected_on_right@.len() == self.unconnected_on_left@.len() + 1
    }

    /// The starticle exists and is the head of its chain.
    pub open spec fn starticle_ok(self) -> bool {
        &&& self.starticle_idx < self.particles.len()
        &&& self.particles@[self.starticle_idx as int].prev is Err
    }

    /// The score and bulk fields equal their mathematical definitions.
    pub open spec fn score_ok(self) -> bool {
        &&& self.score == sum_chars(self.particles@) + sum_costs(self.particles@)
        &&& self.bulk == sum_chars(self.particles@) + sum_pads(self.particles@)
    }

    /// Well-formedness of a chain state.
    pub open spec fn wf(self) -> bool {
        &&& self.links_ok()
        &&& self.distinct_chars()
        &&& self.uor_ok()
        &&& self.uol_ok()
        &&& self.counts_ok()
        &&& self.starticle_ok()
        &&& self.score_ok()
        &&& chains_partition(self.particles@, self.chains@)
    }

    /// An empty state: no particles, no chains, score zero.
    pub fn new() -> (r: State)
        ensures
            r.particles@.len() == 0,
            r.score == 0,
            r.bulk == 0,
            r.unconnected_on_right@.len() == 0,
            r.unconnected_on_left@ == Set::<usize>::empty(),
            r.starticle_idx == 0,
            r.chains@ == Seq::<Seq<int>>::empty(),
    {
        State {
            particles: Vec::new(),
            score: 0,
            bulk: 0,
            unconnected_on_right: Vec::new(),
            unconnected_on_left: HashSet::new(),
            starticle_idx: 0,
            chains: Ghost(Seq::empty()),
        }
    }

    /// Append a particle as a fresh singleton chain and designate it the
    /// starticle: the permanent head of the final chain.
    pub fn add_starticle(&mut self, chars: Vec<u8>)
        requires
            old(self).particles@.len() < usize::MAX,
            old(self).score + chars@.len() <= isize::MAX,
            old(self).bulk + chars@.len() <= isize::MAX,
            chars@.len() <= isize::MAX as usize,
        ensures
            final(self).particles@ == old(self).particles@.push(
                (Particle {
                    chars: chars,
                    next: Err(NoNext { chain_start_idx: old(self).particles@.len() as usize }),
                    prev: Err(NoPrev { chain_end_idx: old(self).particles@.len() as usize }),
                }),
            ),
            final(self).score == old(self).score + chars@.len(),
            final(self).bulk == old(self).bulk + chars@.len(),
            final(self).unconnected_on_right@ == old(self).unconnected_on_right@.push(
                old(self).particles@.len() as usize,
            ),
            final(self).unconnected_on_left == old(self).unconnected_on_left,
            final(self).starticle_idx == old(self).particles@.len(),
            final(self).chains@ == old(self).chains@.push(
                seq![old(self).particles@.len() as int],
            ),
    {
        let idx = self.particles.len();
        let particle = Particle::new(chars, idx);
        self.score = self.score + (particle.chars.len() as isize);
        self.bulk = self.bulk + (particle.chars.len() as isize);
        self.particles.push(particle);
        self.unconnected_on_right.push(idx);
        self.starticle_idx = idx;
        proof {
            self.chains@ = self.chains@.push(seq![idx as int]);
        }
    }

    /// Append a particle as a fresh singleton chain, unconnected on both
    /// sides.
    pub fn add_particle(&mut self, chars: Vec<u8>)
        requires
            old(self).particles@.len() < usize::MAX,
            old(self).score + chars@.len() <= isize::MAX,
            old(self).bulk + chars@.len() <= isize::MAX,
            chars@.len() <= isize::MAX as usize,
        ensures
            final(self).particles@ == old(self).particles@.push(
                (Particle {
                    chars: chars,
                    next: Err(NoNext { chain_start_idx: old(self).particles@.len() as usize }),
                    prev: Err(NoPrev { chain_end_idx: old(self).particles@.len() as usize }),
                }),
            ),
            final(self).score == old(self).score + chars@.len(),
            final(self).bulk == old(self).bulk + chars@.len(),
            final(self).unconnected_on_right@ == old(self).unconnected_on_right@.push(
                old(self).particles@.len() as usize,
            ),
            final(self).unconnected_on_left@ == old(self).unconnected_on_left@.insert(
                old(self).particles@.len() as usize,
            ),
            final(self).starticle_idx == old(self).starticle_idx,
            final(self).chains@ == old(self).chains@.push(
                seq![old(self).particles@.len() as int],
            ),
    {
        let idx = self.particles.len();
        let particle = Particle::new(chars, idx);
        self.score = self.score + (particle.chars.len() as isize);
        self.bulk = self.bulk + (particle.chars.len() as isize);
        self.particles.push(particle);
        self.unconnected_on_right.push(idx);
        self.unconnected_on_left.insert(idx);
        proof {
            self.chains@ = self.chains@.push(seq![idx as int]);
        }
    }

    /// Build a state from a list of pairwise-distinct particle words. The
    /// first word beginning with `portmanteau` becomes the starticle; every
    /// other word becomes a regular particle, in the order given.
    #[verifier::rlimit(40)]
    pub fn from_words(words: Vec<Vec<u8>>) -> (r: Result<State, StateError>)
        requires
            forall|i: int, j: int| 0 <= i < j < words@.len() ==> words@[i]@ != words@[j]@,
        ensures
            match r {
                Ok(s) => {
                    &&& s.wf()
                    &&& s.particles@.len() == words@.len()
                    &&& forall|i: int|
                        0 <= i < words@.len() ==> s.particles@[i].chars@ == words@[i]@
                    &&& forall|i: int|
                        0 <= i < words@.len() ==> s.particles@[i].next is Err
                            && s.particles@[i].prev is Err
                    &&& s.starticle_idx < words@.len()
                    &&& is_starticle_word(words@[s.starticle_idx as int]@)
                    &&& forall|i: int|
                        0 <= i < s.starticle_idx ==> !is_starticle_word(words@[i]@)
                    &&& s.score == sum_chars(s.particles@)
                    &&& s.unconnected_on_right@.len() == words@.len()
                    &&& forall|k: int|
                        0 <= k < words@.len() ==> s.unconnected_on_right@[k] == k as usize
                },
                Err(StateError::EmptyWord) => exists|i: int|
                    0 <= i < words@.len() && words@[i]@.len() == 0,
                Err(StateError::NoStarticle) => forall|i: int|
                    0 <= i < words@.len() ==> !is_starticle_word(words@[i]@),
                Err(StateError::Oversize) => sum_word_lens(words@) > isize::MAX,
                Err(_) => false,
            },
            (forall|i: int| 0 <= i < words@.len() ==> words@[i]@.len() >= 1) && (exists|i: int|
                0 <= i < words@.len() && is_starticle_word(words@[i]@)) && sum_word_lens(words@)
                <= isize::MAX ==> r is Ok,
    {
        let mut s = State::new();
        let mut found = false;
        let mut i: usize = 0;
        while i < words.len()
            invariant
                forall|a: int, b: int| 0 <= a < b < words@.len() ==> words@[a]@ != words@[b]@,
                i <= words.len(),
                s.particles@.len() == i,
                forall|j: int| #![trigger s.particles@[j]] 0 <= j < i ==> {
                    &&& s.particles@[j].chars@ == words@[j]@
                    &&& s.particles@[j].chars@.len() >= 1
                    &&& s.particles@[j].chars@.len() <= isize::MAX as usize
                    &&& s.particles@[j].next == Err::<Next, NoNext>(
                        NoNext { chain_start_idx: j as usize },
                    )
                    &&& s.particles@[j].prev == Err::<Prev, NoPrev>(
                        NoPrev { chain_end_idx: j as usize },
                    )
                },
                s.unconnected_on_right@.len() == i,
                forall|k: int| 0 <= k < i ==> s.unconnected_on_right@[k] == k as usize,
                s.chains@.len() == i,
                forall|k: int| 0 <= k < i ==> #[trigger] s.chains@[k] == seq![k],
                found <==> exists|j: int| 0 <= j < i && is_starticle_word(words@[j]@),
                found ==> {
                    &&& s.starticle_idx < i
                    &&& is_starticle_word(words@[s.starticle_idx as int]@)
                    &&& forall|j: int|
                        0 <= j < s.starticle_idx ==> !is_starticle_word(words@[j]@)
                },
                !found ==> s.starticle_idx == 0,
                s.unconnected_on_left@.finite(),
                forall|x: usize| #![trigger s.unconnected_on_left@.contains(x)]
                    s.unconnected_on_left@.contains(x) <==> (x < i && (found ==> x
                        != s.starticle_idx)),
                s.unconnected_on_left@.len() == (if found { i - 1 } else { i as int }),
                s.score == sum_chars(s.particles@),
                s.bulk == s.score,
                s.score >= 0,
                s.score <= sum_word_lens(words@.subrange(0, i as int)),
                sum_costs(s.particles@) == 0,
                sum_pads(s.particles@) == 0,
            decreases words.len() - i,
        {
            let word = clone_bytes(&words[i]);
            if word.len() == 0 {
                return Err(StateError::EmptyWord);
            }
            if word.len() > (isize::MAX - s.score) as usize {
                proof {
                    lemma_sum_word_lens_bound(words@, i as int);
                }
                return Err(StateError::Oversize);
            }
            proof {
                lemma_sums_push(
                    s.particles@,
                    (Particle {
                        chars: word,
                        next: Err(NoNext { chain_start_idx: i }),
                        prev: Err(NoPrev { chain_end_idx: i }),
                    }),
                );
                lemma_sum_word_lens_step(words@, i as int);
            }
            if !found && word_is_starticle(&word) {
                found = true;
                s.add_starticle(word);
            } else {
                s.add_particle(word);
            }
            i += 1;
        }
        if !found {
            return Err(StateError::NoStarticle);
        }
        proof {
            reveal(State::links_ok);
            reveal(State::uor_ok);
            reveal(State::uol_ok);
            assert(words@.subrange(0, words@.len() as int) =~= words@);
            assert forall|ii: int|
                0 <= ii < s.particles.len() && s.particles@[ii].next is Err implies s
                .unconnected_on_right@.contains(ii as usize) by {
                assert(s.unconnected_on_right@[ii] == ii as usize);
            }
            assert forall|ii: int, jj: int|
                0 <= ii < jj < s.particles.len() implies s.particles@[ii].chars@
                != s.particles@[jj].chars@ by {
                assert(s.particles@[ii].chars@ == words@[ii]@);
                assert(s.particles@[jj].chars@ == words@[jj]@);
            }
            assert(chains_partition(s.particles@, s.chains@)) by {
                reveal(chains_partition);
                let cs = s.chains@;
                let ps = s.particles@;
                assert forall|k: int| 0 <= k < cs.len() implies chain_shape(
                    ps,
                    #[trigger] cs[k],
                ) by {
                    assert(cs[k] == seq![k]);
                    assert(cs[k][0] == k);
                }
                assert forall|ii: int| 0 <= ii < ps.len() implies some_chain_holds(cs, ii) by {
                    assert(cs[ii][0] == ii);
                }
            }
            assert(s.wf());
        }
        Ok(s)
    }

    /// Join the tail `p` (at position `pick` of `unconnected_on_right`) to
    /// the chain head `q = nx.next_idx`, and fuse the endpoint bookkeeping:
    /// the head `s` of p's chain now records `e`, the end of q's old chain,
    /// as its chain's end, and `e` records `s` as its chain's head.
    #[verifier::rlimit(100)]
    #[verifier::spinoff_prover]
    fn link_pair(&mut self, pick: usize, s: usize, nx: Next, e: usize, cost: isize, pad: isize)
        requires
            old(self).wf(),
            pick < old(self).unconnected_on_right@.len(),
            s < old(self).particles@.len(),
            e < old(self).particles@.len(),
            nx.next_idx < old(self).particles@.len(),
            ({
                let p = old(self).unconnected_on_right@[pick as int];
                let q = nx.next_idx;
                &&& p != q
                &&& e != p
                &&& q != s
                &&& old(self).particles@[p as int].next == Err::<Next, NoNext>(
                    NoNext { chain_start_idx: s },
                )
                &&& old(self).particles@[q as int].prev == Err::<Prev, NoPrev>(
                    NoPrev { chain_end_idx: e },
                )
                &&& old(self).particles@[e as int].next is Err
                &&& old(self).particles@[s as int].prev is Err
                &&& old(self).unconnected_on_left@.contains(q)
                &&& edge_ok(
                    old(self).particles@[p as int].chars@,
                    nx.edge,
                    old(self).particles@[q as int].chars@,
                )
            }),
            cost as int == nx.edge.spec_score(),
            pad as int == pad_of(nx.edge),
            old(self).score + cost <= isize::MAX,
            old(self).score + cost >= isize::MIN,
            old(self).bulk + pad <= isize::MAX,
            old(self).bulk + pad >= isize::MIN,
        ensures
            final(self).wf(),
            final(self).particles@.len() == old(self).particles@.len(),
            final(self).starticle_idx == old(self).starticle_idx,
            forall|i: int|
                0 <= i < old(self).particles@.len()
                    ==> final(self).particles@[i].chars@ == old(self).particles@[i].chars@,
            forall|i: int| #![trigger final(self).particles@[i].next]
                0 <= i < old(self).particles@.len()
                    && i != old(self).unconnected_on_right@[pick as int] && i != e
                    ==> final(self).particles@[i].next == old(self).particles@[i].next,
            final(self).particles@[old(self).unconnected_on_right@[pick as int] as int].next
                == Ok::<Next, NoNext>(nx),
            final(self).particles@[e as int].next is Err,
            final(self).unconnected_on_left@ == old(self).unconnected_on_left@.remove(nx.next_idx),
            final(self).unconnected_on_right@.len() == old(self).unconnected_on_right@.len() - 1,
            final(self).score == old(self).score + cost,
            final(self).bulk == old(self).bulk + pad,
    {
        proof {
            reveal(State::links_ok);
            reveal(State::uor_ok);
            reveal(State::uol_ok);
        }
        let p = self.unconnected_on_right[pick];
        let q = nx.next_idx;
        let ghost ps0 = self.particles@;
        let ghost the_edge = nx.edge;
        assert(self.particles@[p as int].next is Err);
        assert(self.particles@[q as int].prev is Err);
        set_next(&mut self.particles, p, Ok(nx));
        let ghost ps1 = self.particles@;
        set_prev(&mut self.particles, q, Ok(Prev { prev_idx: p }));
        let ghost ps2 = self.particles@;
        set_prev(&mut self.particles, s, Err(NoPrev { chain_end_idx: e }));
        let ghost ps3 = self.particles@;
        set_next(&mut self.particles, e, Err(NoNext { chain_start_idx: s }));
        let ghost ps4 = self.particles@;

        let ghost uor0 = self.unconnected_on_right@;
        let removed = self.unconnected_on_right.swap_remove(pick);
        proof {
            lemma_swap_remove_distinct(uor0, pick as int);
        }
        let was_in = self.unconnected_on_left.remove(&q);
        self.score = self.score + cost;
        self.bulk = self.bulk + pad;
        proof {
            reveal(State::links_ok);
            reveal(State::uor_ok);
            reveal(State::uol_ok);
            let n = ps0.len();
            let ghost ps = self.particles@;
            // pointwise picture of the array after the four writes
            assert(ps.len() == n);
            assert(forall|i: int| 0 <= i < n ==> ps[i].chars == ps0[i].chars);
            assert(forall|i: int|
                0 <= i < n ==> ps[i].next == (if i == e {
                    Err::<Next, NoNext>(NoNext { chain_start_idx: s })
                } else if i == p {
                    Ok::<Next, NoNext>(Next { next_idx: q, edge: the_edge })
                } else {
                    ps0[i].next
                }));
            assert(forall|i: int|
                0 <= i < n ==> ps[i].prev == (if i == s {
                    Err::<Prev, NoPrev>(NoPrev { chain_end_idx: e })
                } else if i == q {
                    Ok::<Prev, NoPrev>(Prev { prev_idx: p })
                } else {
                    ps0[i].prev
                }));
            lemma_sums_update(ps0, ps1, p as int);
            lemma_sums_update(ps1, ps2, q as int);
            lemma_sums_update(ps2, ps3, s as int);
            lemma_sums_update(ps3, ps4, e as int);
            assert(sum_chars(ps4) == sum_chars(ps0));
            assert(sum_costs(ps4) == sum_costs(ps0) + the_edge.spec_score());
            assert(sum_pads(ps4) == sum_pads(ps0) + pad_of(the_edge));
            assert(self.score_ok());
            assert forall|i: int| #![trigger ps[i]]
                0 <= i < n && ps[i].next is Ok implies {
                &&& ps[i].next->Ok_0.next_idx < n
                &&& ps[ps[i].next->Ok_0.next_idx as int].prev == Ok::<Prev, NoPrev>(
                    Prev { prev_idx: i as usize },
                )
                &&& edge_ok(ps[i].chars@, ps[i].next->Ok_0.edge, ps[ps[i].next->Ok_0.next_idx as int].chars@)
            } by {
                if i == p {
                    assert(ps[q as int].prev == Ok::<Prev, NoPrev>(Prev { prev_idx: p }));
                } else {
                    let j = ps[i].next->Ok_0.next_idx;
                    assert(ps0[i].next is Ok);
                    assert(ps0[j as int].prev == Ok::<Prev, NoPrev>(Prev { prev_idx: i as usize }));
                    assert(j != q && j != s);
                }
            }
            assert forall|i: int| #![trigger ps[i]]
                0 <= i < n && ps[i].prev is Ok implies {
                &&& ps[i].prev->Ok_0.prev_idx < n
                &&& ps[ps[i].prev->Ok_0.prev_idx as int].next is Ok
                &&& ps[ps[i].prev->Ok_0.prev_idx as int].next->Ok_0.next_idx == i
            } by {
                if i == q {
                    assert(ps[p as int].next is Ok);
                } else {
                    let j = ps[i].prev->Ok_0.prev_idx;
                    assert(ps0[i].prev is Ok);
                    assert(ps0[j as int].next is Ok && ps0[j as int].next->Ok_0.next_idx == i);
                    assert(j != p && j != e);
                }
            }
            assert(self.links_ok());
            assert forall|i: int|
                0 <= i < n && ps[i].next is Err implies self.unconnected_on_right@.contains(
                i as usize) by {
                assert(i != p as int);
                if i != e as int {
                    assert(ps0[i].next is Err);
                }
                assert(uor0.contains(i as usize));
            }
            assert(self.uor_ok());
            assert forall|i: int|
                0 <= i < n && i != self.starticle_idx && ps[i].prev is Err implies self
                .unconnected_on_left@.contains(i as usize) by {
                assert(i != q as int);
                if i != s as int {
                    assert(ps0[i].prev is Err);
                }
            }
            assert(self.uol_ok());
            assert(self.counts_ok());
            assert(self.starticle_ok());
            // locate the two chains and record their merge
            let cs0 = old(self).chains@;
            let (ka, ta) = lemma_find_chain(*old(self), p as int);
            let (kb, tb) = lemma_find_chain(*old(self), q as int);
            assert(cs0[ka][cs0[ka].len() - 1] == p as int && cs0[ka][0] == s as int);
            assert(cs0[kb][0] == q as int && cs0[kb][cs0[kb].len() - 1] == e as int);
            if ka == kb {
                assert(q == s);
                assert(false);
            }
            self.chains@ = merge_chain_list(cs0, ka, kb);
            lemma_merge_chains(
                ps0,
                self.particles@,
                cs0,
                ka,
                kb,
                (Next { next_idx: q, edge: the_edge }),
            );
            assert(self.wf());
        }
    }

    /// Index every current chain head by its bytes: the trie that the
    /// coalescing pass draws its link targets from.
    #[verifier::rlimit(100)]
    fn build_heads_trie(&self) -> (t: ByteTrie)
        requires
            self.wf(),
        ensures
            trie_contents(t).dom().finite(),
            heads_trie_ok(*self, trie_contents(t)),
    {
        proof {
            reveal(State::uol_ok);
            reveal(heads_trie_ok);
        }
        let n = self.particles.len();
        let mut particles_trie = trie_new();
        let mut bi: usize = 0;
        while bi < n
            invariant
                self.wf(),
                n == self.particles@.len(),
                bi <= n,
                trie_contents(particles_trie).dom().finite(),
                forall|h: usize| #![trigger self.unconnected_on_left@.contains(h)]
                    self.unconnected_on_left@.contains(h) && h < bi ==> trie_contents(
                        particles_trie,
                    ).contains_key(self.particles@[h as int].chars@) && trie_contents(
                        particles_trie,
                    )[self.particles@[h as int].chars@] == h,
                forall|k: Seq<u8>| #![trigger trie_contents(particles_trie).contains_key(k)]
                    trie_contents(particles_trie).contains_key(k) ==> trie_contents(
                        particles_trie,
                    )[k] < bi && self.unconnected_on_left@.contains(
                        trie_contents(particles_trie)[k],
                    ) && self.particles@[trie_contents(particles_trie)[k] as int].chars@ == k,
            decreases n - bi,
        {
            proof {
                reveal(State::uol_ok);
                reveal(heads_trie_ok);
            }
            if bi != self.starticle_idx {
                let prev_unset = match &self.particles[bi].prev {
                    Err(_) => true,
                    Ok(_) => false,
                };
                if prev_unset {
                    let key = clone_bytes(&self.particles[bi].chars);
                    trie_insert(&mut particles_trie, key, bi);
                }
            }
            bi += 1;
        }
        proof {
            reveal(State::uol_ok);
            reveal(heads_trie_ok);
            assert(heads_trie_ok(*self, trie_contents(particles_trie)));
        }
        particles_trie
    }

    /// One coalescing pass: pick a chain tail, search for its cheapest
    /// edge, and link it to a chain head drawn from the trie, which then
    /// loses that head's key.
    #[verifier::rlimit(100)]
    #[verifier::spinoff_prover]
    fn coalesce_step(
        &mut self,
        words_trie: &ByteTrie,
        particles_trie: &mut ByteTrie,
        rng: &mut rand::rngs::StdRng,
        Ghost(orig): Ghost<Seq<Particle>>,
    ) -> (r: Result<(), StateError>)
        requires
            old(self).wf(),
            orig.len() == old(self).particles@.len(),
            trie_contents(*old(particles_trie)).dom().finite(),
            trie_contents(*old(particles_trie)).dom().len() > 0,
            heads_trie_ok(*old(self), trie_contents(*old(particles_trie))),
            forall|i: int|
                0 <= i < orig.len() ==> old(self).particles@[i].chars@ == orig[i].chars@,
            forall|i: int| #![trigger orig[i]]
                0 <= i < orig.len() && orig[i].next is Ok
                    ==> old(self).particles@[i].next == orig[i].next,
            forall|i: int| #![trigger old(self).particles@[i]]
                0 <= i < orig.len() && orig[i].next is Err && old(self).particles@[i].next is Ok
                    ==> padded_edge_justified(old(self).particles@, i, trie_contents(*words_trie)),
        ensures
            final(self).wf(),
            final(self).particles@.len() == old(self).particles@.len(),
            final(self).starticle_idx == old(self).starticle_idx,
            trie_contents(*final(particles_trie)).dom().finite(),
            heads_trie_ok(*final(self), trie_contents(*final(particles_trie))),
            forall|i: int|
                0 <= i < orig.len() ==> final(self).particles@[i].chars@ == orig[i].chars@,
            forall|i: int| #![trigger orig[i]]
                0 <= i < orig.len() && orig[i].next is Ok
                    ==> final(self).particles@[i].next == orig[i].next,
            forall|i: int| #![trigger final(self).particles@[i]]
                0 <= i < orig.len() && orig[i].next is Err && final(self).particles@[i].next is Ok
                    ==> padded_edge_justified(final(self).particles@, i, trie_contents(*words_trie)),
            r is Ok ==> trie_contents(*final(particles_trie)).dom().len() < trie_contents(
                *old(particles_trie),
            ).dom().len(),
            r is Err ==> r == Err::<(), StateError>(StateError::NoCandidate) || r == Err::<
                (),
                StateError,
            >(StateError::Oversize),
            joiners_cover_pairs(trie_contents(*words_trie)) ==> r is Ok,
    {
        let ghost words = trie_contents(*words_trie);
        let n = self.particles.len();
        let pt_len = trie_len(particles_trie);
        let uor_len = self.unconnected_on_right.len();
        assert(uor_len >= 1);
        let mut pick: usize = 0;
        if pt_len == 1 {
            // the last head must extend the starticle's chain
            let mut found_pick = false;
            let mut j: usize = 0;
            while j < uor_len
                invariant
                    self.wf(),
                    n == self.particles@.len(),
                    uor_len == self.unconnected_on_right@.len(),
                    j <= uor_len,
                    found_pick ==> pick < uor_len && ({
                        let pi = self.unconnected_on_right@[pick as int] as int;
                        self.particles@[pi].next is Err
                            && self.particles@[pi].next->Err_0.chain_start_idx
                            == self.starticle_idx
                    }),
                    !found_pick ==> pick == 0 && forall|j2: int|
                        #![trigger self.unconnected_on_right@[j2]]
                        0 <= j2 < j ==> !({
                            let pi = self.unconnected_on_right@[j2] as int;
                            &&& self.particles@[pi].next is Err
                            &&& self.particles@[pi].next->Err_0.chain_start_idx
                                == self.starticle_idx
                        }),
                decreases uor_len - j,
            {
                proof {
                    reveal(State::uor_ok);
                }
                if !found_pick {
                    let cand = self.unconnected_on_right[j];
                    let qualifies = match &self.particles[cand].next {
                        Err(nn) => nn.chain_start_idx == self.starticle_idx,
                        Ok(_) => false,
                    };
                    if qualifies {
                        pick = j;
                        found_pick = true;
                    }
                }
                j += 1;
            }
            proof {
                if !found_pick {
                    // the tail of the starticle's own chain always
                    // qualifies and sits in the queue
                    let jt = lemma_starticle_tail_queued(*self);
                    assert(false);
                }
            }
        } else {
            pick = rng_below(rng, uor_len);
        }
        assert(pick < uor_len);
        assert(pt_len == 1 ==> {
            let pi = self.unconnected_on_right@[pick as int] as int;
            &&& self.particles@[pi].next is Err
            &&& self.particles@[pi].next->Err_0.chain_start_idx == self.starticle_idx
        });
        let particle_idx = self.unconnected_on_right[pick];
        assert(particle_idx < n && self.particles@[particle_idx as int].next is Err
            && self.particles@[particle_idx as int].chars@.len() >= 1
            && self.particles@[particle_idx as int].chars@.len() <= isize::MAX as usize) by {
            reveal(State::uor_ok);
            reveal(State::links_ok);
        }
        let ghost chars_p = self.particles@[particle_idx as int].chars@;
        let s_idx = match &self.particles[particle_idx].next {
            Err(nn) => nn.chain_start_idx,
            Ok(_) => {
                proof {
                    assert(false);
                }
                0
            },
        };
        proof {
            // the recorded chain start names the head of the pick's chain
            lemma_tail_names_head(*self, particle_idx as int);
        }
        assert(s_idx < n && self.particles@[s_idx as int].prev is Err);
        proof {
            if s_idx != self.starticle_idx {
                assert(trie_contents(*particles_trie).contains_key(
                    self.particles@[s_idx as int].chars@,
                ) && trie_contents(*particles_trie)[self.particles@[s_idx as int].chars@]
                    == s_idx) by {
                    reveal(State::uol_ok);
                    reveal(heads_trie_ok);
                }
            }
        }
        // hide that head while searching, to keep the chain acyclic
        let ghost pt0 = trie_contents(*particles_trie);
        if s_idx != self.starticle_idx {
            let skey = clone_bytes(&self.particles[s_idx].chars);
            trie_remove(particles_trie, &skey);
        }
        let ghost pt1 = trie_contents(*particles_trie);
        let best_opt = find_next(&self.particles[particle_idx], words_trie, particles_trie);
        if s_idx != self.starticle_idx {
            let skey2 = clone_bytes(&self.particles[s_idx].chars);
            trie_insert(particles_trie, skey2, s_idx);
        }
        proof {
            assert(trie_contents(*particles_trie) =~= pt0);
            // the shrunken trie still holds at least one head, and every
            // key it holds was held before the removal
            if s_idx != self.starticle_idx {
                assert(pt_len >= 2);
                assert(pt1.dom() =~= pt0.dom().remove(self.particles@[s_idx as int].chars@));
                assert(pt1.dom().len() >= 1);
            } else {
                assert(pt1 =~= pt0);
            }
            assert(pt1.dom().finite() && pt1.dom().len() >= 1);
            assert forall|k: Seq<u8>| #![trigger pt1.contains_key(k)]
                pt1.contains_key(k) implies pt0.contains_key(k) by {
                assert(pt1.dom().contains(k));
            }
        }
        let best = match best_opt {
            Some(b) => b,
            None => {
                proof {
                    if joiners_cover_pairs(words) {
                        lemma_covered_search(*self, chars_p, None, words, pt0, pt1);
                    }
                }
                return Err(StateError::NoCandidate);
            },
        };
        let q = best.next_idx;
        proof {
            // the pick names a stored head: recover its identity and check
            // the overlap bytes against that head
            reveal(State::uol_ok);
            reveal(heads_trie_ok);
            match &best.edge {
                Edge::Overlapped(nn) => {
                    let nv = *nn as int;
                    let k = choose|k: Seq<u8>|
                        pt1.contains_key(k) && pt1[k] == q && chars_p.subrange(
                            chars_p.len() - nv,
                            chars_p.len() as int,
                        ).is_prefix_of(k);
                    assert(pt0.contains_key(k) && pt0[k] == q);
                    assert(self.particles@[q as int].chars@ == k);
                    assert(chars_p.subrange(chars_p.len() - nv, chars_p.len() as int)
                        == k.subrange(0, nv));
                    assert(edge_ok(chars_p, best.edge, self.particles@[q as int].chars@));
                },
                Edge::Padded { padding } => {
                    let (w, sl, cut, k): (Seq<u8>, int, int, Seq<u8>) = choose|
                        w: Seq<u8>,
                        sl: int,
                        cut: int,
                        k: Seq<u8>,
                    |
                        padded_choice(chars_p, words, pt1, w, sl, cut, k) && pt1[k] == q
                            && padding@ == w.subrange(sl, cut);
                    assert(pt0.contains_key(k) && pt0[k] == q);
                    assert(self.particles@[q as int].chars@ == k);
                    let m = w.len() - cut;
                    assert(w.subrange(cut, w.len() as int) == k.subrange(0, m));
                    assert(w =~= w.subrange(0, sl) + w.subrange(sl, cut) + w.subrange(
                        cut,
                        w.len() as int,
                    ));
                    assert(w == chars_p.subrange(chars_p.len() - sl, chars_p.len() as int)
                        + padding@ + k.subrange(0, m));
                    assert(padded_edge_follows(chars_p, padding@, k, w));
                    assert(words.contains_key(w));
                },
            }
            assert(q < n && self.unconnected_on_left@.contains(q) && q != self.starticle_idx
                && self.particles@[q as int].prev is Err);
            if s_idx != self.starticle_idx {
                assert(q != s_idx);
            }
        }
        let ghost chars_q = self.particles@[q as int].chars@;
        proof {
            assert(q != s_idx);
            // the target is a head on another chain: neither it nor its
            // chain's recorded end can be the pick
            lemma_other_chain_facts(*self, particle_idx, q);
        }
        let e_idx = match &self.particles[q].prev {
            Err(np) => np.chain_end_idx,
            Ok(_) => {
                proof {
                    assert(false);
                }
                0
            },
        };
        assert(e_idx < n && self.particles@[e_idx as int].next is Err
            && e_idx != particle_idx);
        // score and bulk stay inside machine range or the pass stops
        let cost128: i128 = match &best.edge {
            Edge::Overlapped(nn) => -(*nn as i128),
            Edge::Padded { padding } => padding.len() as i128,
        };
        let pad128: i128 = match &best.edge {
            Edge::Overlapped(_) => 0,
            Edge::Padded { padding } => padding.len() as i128,
        };
        let new_score: i128 = self.score as i128 + cost128;
        let new_bulk: i128 = self.bulk as i128 + pad128;
        proof {
            if joiners_cover_pairs(words) {
                // with every byte pair bridged, the chosen edge pads
                // nothing, and the totals stay inside the machine range
                lemma_covered_search(*self, chars_p, Some(best), words, pt0, pt1);
                assert(pad128 == pad_of(best.edge) && cost128 == best.edge.spec_score());
                lemma_wf_cost_bounds(*self);
                lemma_sums_bounded(self.particles@);
                assert(self.score >= 0);
                assert(cost128 >= -(chars_p.len() as i128));
                assert(new_score >= isize::MIN as i128 && new_score <= isize::MAX as i128);
                assert(new_bulk == self.bulk as i128);
            }
        }
        if new_score > isize::MAX as i128 || new_score < isize::MIN as i128 || new_bulk
            > isize::MAX as i128 || new_bulk < isize::MIN as i128 {
            return Err(StateError::Oversize);
        }
        proof {
            lemma_sums_nonneg(self.particles@);
            assert(self.bulk >= 0);
            assert(pad128 <= isize::MAX as i128);
            assert(edge_ok(chars_p, best.edge, chars_q));
        }
        let cost: isize = match &best.edge {
            Edge::Overlapped(nn) => -(*nn as isize),
            Edge::Padded { padding } => padding.len() as isize,
        };
        let pad: isize = match &best.edge {
            Edge::Overlapped(_) => 0,
            Edge::Padded { padding } => padding.len() as isize,
        };
        let ghost justification_edge = best.edge;

        proof {
            assert(self.particles@[particle_idx as int].next == Err::<Next, NoNext>(
                NoNext { chain_start_idx: s_idx },
            ));
            assert(self.particles@[q as int].prev == Err::<Prev, NoPrev>(
                NoPrev { chain_end_idx: e_idx },
            ));
        }
        // commit: link the tail to the head and fuse the endpoint
        // bookkeeping of the two chains
        self.link_pair(pick, s_idx, best, e_idx, cost, pad);
        let qkey = clone_bytes(&self.particles[q].chars);
        trie_remove(particles_trie, &qkey);
        proof {
            assert(trie_contents(*particles_trie) == pt0.remove(chars_q));
            assert(pt0.contains_key(chars_q)) by {
                reveal(heads_trie_ok);
            }
            assert(trie_contents(*particles_trie).dom() =~= pt0.dom().remove(chars_q));
            assert forall|h: usize| #![trigger self.unconnected_on_left@.contains(h)]
                self.unconnected_on_left@.contains(h) implies trie_contents(
                *particles_trie,
            ).contains_key(self.particles@[h as int].chars@) && trie_contents(*particles_trie)[
                self.particles@[h as int].chars@] == h by {
                reveal(heads_trie_ok);
                assert(old(self).unconnected_on_left@.contains(h) && h != q);
                assert(self.particles@[h as int].chars@ != chars_q);
            }
            assert forall|k: Seq<u8>| #![trigger trie_contents(*particles_trie).contains_key(k)]
                trie_contents(*particles_trie).contains_key(k) implies trie_contents(
                *particles_trie,
            )[k] < self.particles@.len() && self.unconnected_on_left@.contains(
                trie_contents(*particles_trie)[k],
            ) && self.particles@[trie_contents(*particles_trie)[k] as int].chars@ == k by {
                reveal(heads_trie_ok);
                assert(pt0.contains_key(k) && pt0[k] < n);
                assert(pt0[k] != q);
            }
            assert(heads_trie_ok(*self, trie_contents(*particles_trie))) by {
                reveal(heads_trie_ok);
            }
            // a padded pick is justified by the joiner word found for it
            assert forall|i: int| #![trigger self.particles@[i]]
                0 <= i < orig.len() && orig[i].next is Err && self.particles@[i].next is Ok
                implies padded_edge_justified(self.particles@, i, words) by {
                if i == particle_idx as int {
                    assert(self.particles@[i].next == Ok::<Next, NoNext>(
                        Next { next_idx: q, edge: justification_edge },
                    ));
                } else if i == e_idx as int {
                    assert(self.particles@[i].next is Err);
                } else {
                    assert(self.particles@[i].next == old(self).particles@[i].next);
                    assert(padded_edge_justified(old(self).particles@, i, words));
                    assert(self.particles@[i].chars@ == old(self).particles@[i].chars@);
                }
            }
        }
        Ok(())
    }

    /// Derive the edge between two neighbouring occurrences in a rendered
    /// byte string: an overlap when they meet or cross, padding otherwise.
    fn derive_edge(
        portmantout: &Vec<u8>,
        sa: usize,
        a: &Vec<u8>,
        sb: usize,
        b: &Vec<u8>,
    ) -> (r: Result<(Edge, isize, isize), StateError>)
        requires
            matches_at(portmantout@, a@, sa as int),
            matches_at(portmantout@, b@, sb as int),
            sa <= sb,
        ensures
            match r {
                Ok(ecp) => edge_ok(a@, ecp.0, b@) && ecp.1 as int == ecp.0.spec_score() && ecp.2
                    as int == pad_of(ecp.0) && edge_matches_span(
                    portmantout@,
                    ecp.0,
                    sa + a@.len(),
                    sb as int,
                ),
                Err(e) => e == StateError::BrokenInvariant || e == StateError::Oversize,
            },
            a@.len() <= isize::MAX as usize && portmantout@.len() <= isize::MAX as usize && sa
                + a@.len() <= sb + b@.len() ==> r is Ok,
    {
        let la = a.len();
        let lb = b.len();
        let total = portmantout.len();
        proof {
            assert(sa + a@.len() <= total);
        }
        if sa + la > sb {
            let n_ov = sa + la - sb;
            if n_ov > lb {
                return Err(StateError::BrokenInvariant);
            }
            proof {
                assert(a@ =~= portmantout@.subrange(sa as int, sa + la));
                assert(b@ =~= portmantout@.subrange(sb as int, sb + lb));
                assert forall|t: int| 0 <= t < n_ov implies a@[la - n_ov + t] == b@[t] by {
                    assert(a@[la - n_ov + t] == portmantout@[sa + la - n_ov + t]);
                    assert(b@[t] == portmantout@[sb + t]);
                }
                assert(a@.subrange(la - n_ov, la as int) =~= b@.subrange(0, n_ov as int));
            }
            if n_ov > isize::MAX as usize {
                return Err(StateError::Oversize);
            }
            Ok((Edge::Overlapped(n_ov), -(n_ov as isize), 0))
        } else {
            let padding = copy_range(portmantout, sa + la, sb);
            if padding.len() > isize::MAX as usize {
                return Err(StateError::Oversize);
            }
            let c = padding.len() as isize;
            Ok((Edge::Padded { padding }, c, c))
        }
    }

    /// The shape of the particle array while the first `k` edges of the
    /// run along `sl` have been laid: earlier records are linked to their
    /// successors, later ones still carry their original links.
    pub open spec fn run_shape(
        pt: Seq<u8>,
        ps: Seq<Particle>,
        orig: Seq<Particle>,
        sl: Seq<(usize, usize)>,
        k: int,
        t: int,
    ) -> bool {
        &&& (t < k ==> ps[sl[t].1 as int].next is Ok && ps[sl[t].1 as int].next->Ok_0.next_idx
            == sl[t + 1].1 && edge_ok(
            ps[sl[t].1 as int].chars@,
            ps[sl[t].1 as int].next->Ok_0.edge,
            ps[sl[t + 1].1 as int].chars@,
        ) && edge_matches_span(
            pt,
            ps[sl[t].1 as int].next->Ok_0.edge,
            sl[t].0 + ps[sl[t].1 as int].chars@.len(),
            sl[t + 1].0 as int,
        ))
        &&& (t >= k ==> ps[sl[t].1 as int].next == orig[sl[t].1 as int].next)
        &&& (1 <= t && t <= k ==> ps[sl[t].1 as int].prev == Ok::<Prev, NoPrev>(
            Prev { prev_idx: sl[t - 1].1 },
        ))
        &&& ((t == 0 || t > k) ==> ps[sl[t].1 as int].prev == orig[sl[t].1 as int].prev)
    }

    /// The shape of the particle array once the run along `sl` is closed:
    /// a single chain from `first` to `last` with endpoint records.
    pub open spec fn sealed_shape(
        ps: Seq<Particle>,
        sl: Seq<(usize, usize)>,
        first: usize,
        last: usize,
        t: int,
    ) -> bool {
        &&& (t < sl.len() - 1 ==> ps[sl[t].1 as int].next is Ok
            && ps[sl[t].1 as int].next->Ok_0.next_idx == sl[t + 1].1 && edge_ok(
            ps[sl[t].1 as int].chars@,
            ps[sl[t].1 as int].next->Ok_0.edge,
            ps[sl[t + 1].1 as int].chars@,
        ))
        &&& (t == sl.len() - 1 ==> ps[sl[t].1 as int].next == Err::<Next, NoNext>(
            NoNext { chain_start_idx: first },
        ))
        &&& (1 <= t ==> ps[sl[t].1 as int].prev == Ok::<Prev, NoPrev>(
            Prev { prev_idx: sl[t - 1].1 },
        ))
        &&& (t == 0 ==> ps[sl[t].1 as int].prev == Err::<Prev, NoPrev>(
            NoPrev { chain_end_idx: last },
        ))
    }

    /// A chain laid out along `sl` with endpoint records on its first and
    /// last particles satisfies the link conditions at every index.
    proof fn lemma_seal_links(ps: Seq<Particle>, sl: Seq<(usize, usize)>, first: usize, last: usize)
        requires
            sl.len() >= 1,
            ps.len() == sl.len(),
            forall|i: int| #![trigger ps[i]]
                0 <= i < ps.len() ==> ps[i].chars.len() >= 1 && ps[i].chars.len()
                    <= isize::MAX as usize,
            forall|kk: int| #![trigger sl[kk]] 0 <= kk < sl.len() ==> sl[kk].1 < sl.len(),
            forall|t: int, t2: int| 0 <= t < t2 < sl.len() ==> sl[t].1 != sl[t2].1,
            forall|j: int| 0 <= j < sl.len() ==> #[trigger] index_appears(sl, j),
            first == sl[0].1,
            last == sl[sl.len() - 1].1,
            forall|t: int|
                0 <= t < sl.len() ==> #[trigger] Self::sealed_shape(ps, sl, first, last, t),
        ensures
            forall|i: int| #![trigger ps[i]]
                0 <= i < ps.len() ==> {
                    &&& ps[i].chars.len() >= 1
                    &&& ps[i].chars.len() <= isize::MAX as usize
                    &&& (ps[i].next is Ok ==> {
                        &&& ps[i].next->Ok_0.next_idx < ps.len()
                        &&& ps[ps[i].next->Ok_0.next_idx as int].prev == Ok::<Prev, NoPrev>(
                            Prev { prev_idx: i as usize },
                        )
                        &&& edge_ok(
                            ps[i].chars@,
                            ps[i].next->Ok_0.edge,
                            ps[ps[i].next->Ok_0.next_idx as int].chars@,
                        )
                    })
                    &&& (ps[i].next is Err ==> ps[i].next->Err_0.chain_start_idx < ps.len())
                    &&& (ps[i].prev is Ok ==> {
                        &&& ps[i].prev->Ok_0.prev_idx < ps.len()
                        &&& ps[ps[i].prev->Ok_0.prev_idx as int].next is Ok
                        &&& ps[ps[i].prev->Ok_0.prev_idx as int].next->Ok_0.next_idx == i
                    })
                    &&& (ps[i].prev is Err ==> ps[i].prev->Err_0.chain_end_idx < ps.len())
                },
    {
        let n = sl.len();
        assert(sl[0].1 < n && sl[n - 1].1 < n);
        assert forall|i: int| #![trigger ps[i]]
            0 <= i < n implies {
            &&& (ps[i].next is Ok ==> {
                &&& ps[i].next->Ok_0.next_idx < n
                &&& ps[ps[i].next->Ok_0.next_idx as int].prev == Ok::<Prev, NoPrev>(
                    Prev { prev_idx: i as usize },
                )
                &&& edge_ok(
                    ps[i].chars@,
                    ps[i].next->Ok_0.edge,
                    ps[ps[i].next->Ok_0.next_idx as int].chars@,
                )
            })
            &&& (ps[i].next is Err ==> ps[i].next->Err_0.chain_start_idx < n)
            &&& (ps[i].prev is Ok ==> {
                &&& ps[i].prev->Ok_0.prev_idx < n
                &&& ps[ps[i].prev->Ok_0.prev_idx as int].next is Ok
                &&& ps[ps[i].prev->Ok_0.prev_idx as int].next->Ok_0.next_idx == i
            })
            &&& (ps[i].prev is Err ==> ps[i].prev->Err_0.chain_end_idx < n)
        } by {
            assert(index_appears(sl, i));
            let t = choose|t: int| 0 <= t < sl.len() && #[trigger] sl[t].1 as int == i;
            assert(sl[t].1 as int == i);
            assert(Self::sealed_shape(ps, sl, first, last, t));
            if 1 <= t {
                assert(Self::sealed_shape(ps, sl, first, last, t - 1));
            }
            if t < n - 1 {
                assert(Self::sealed_shape(ps, sl, first, last, t + 1));
                assert(ps[i].next is Ok && ps[i].next->Ok_0.next_idx == sl[t + 1].1);
                assert(sl[t + 1].1 < n);
                assert(ps[sl[t + 1].1 as int].prev == Ok::<Prev, NoPrev>(
                    Prev { prev_idx: sl[t].1 },
                ));
            } else {
                assert(ps[i].next == Err::<Next, NoNext>(NoNext { chain_start_idx: first }));
            }
            if 1 <= t {
                assert(ps[i].prev == Ok::<Prev, NoPrev>(Prev { prev_idx: sl[t - 1].1 }));
                assert(sl[t - 1].1 < n);
                assert(ps[sl[t - 1].1 as int].next is Ok);
                assert(ps[sl[t - 1].1 as int].next->Ok_0.next_idx == sl[t].1);
            } else {
                assert(ps[i].prev == Err::<Prev, NoPrev>(NoPrev { chain_end_idx: last }));
            }
        }
    }

    /// Close the rebuilt chain: record the endpoints on the first and last
    /// particles, hand the chain to the first one as starticle, and reset
    /// the unconnected bookkeeping to the single remaining right endpoint.
    fn seal_writes(&mut self, first: usize, last: usize)
        requires
            first < old(self).particles@.len(),
            last < old(self).particles@.len(),
        ensures
            final(self).particles@.len() == old(self).particles@.len(),
            forall|i: int|
                0 <= i < old(self).particles@.len()
                    ==> final(self).particles@[i].chars == old(self).particles@[i].chars,
            forall|i: int|
                0 <= i < old(self).particles@.len() ==> final(self).particles@[i].next == (if i
                    == last {
                    Err::<Next, NoNext>(NoNext { chain_start_idx: first })
                } else {
                    old(self).particles@[i].next
                }),
            forall|i: int|
                0 <= i < old(self).particles@.len() ==> final(self).particles@[i].prev == (if i
                    == first {
                    Err::<Prev, NoPrev>(NoPrev { chain_end_idx: last })
                } else {
                    old(self).particles@[i].prev
                }),
            final(self).unconnected_on_right@ =~= seq![last],
            final(self).unconnected_on_left@ == Set::<usize>::empty(),
            final(self).starticle_idx == first,
            final(self).score == old(self).score,
            final(self).bulk == old(self).bulk,
            final(self).chains == old(self).chains,
    {
        set_prev(&mut self.particles, first, Err(NoPrev { chain_end_idx: last }));
        set_next(&mut self.particles, last, Err(NoNext { chain_start_idx: first }));
        self.starticle_idx = first;
        let mut single: Vec<usize> = Vec::new();
        single.push(last);
        self.unconnected_on_right = single;
        self.unconnected_on_left = HashSet::new();
    }

    /// A sealed single chain laid out along `sl` is a well-formed state
    /// with one right endpoint and no unclaimed heads.
    #[verifier::rlimit(100)]
    #[verifier::spinoff_prover]
    proof fn lemma_sealed_wf(
        s: State,
        orig: Seq<Particle>,
        sl: Seq<(usize, usize)>,
        ps2: Seq<Particle>,
        first: usize,
        last: usize,
        pt: Seq<u8>,
    )
        requires
            s.chains@ == seq![order_indices(sl)],
            orig.len() == ps2.len(),
            ps2.len() >= 1,
            sl.len() == ps2.len(),
            forall|i: int| #![trigger orig[i]]
                0 <= i < orig.len() ==> orig[i].next is Err && orig[i].prev is Err,
            forall|i: int| #![trigger orig[i]]
                0 <= i < orig.len() ==> orig[i].chars.len() >= 1 && orig[i].chars.len()
                    <= isize::MAX as usize,
            forall|i: int, j: int| 0 <= i < j < orig.len() ==> orig[i].chars@ != orig[j].chars@,
            forall|kk: int| #![trigger sl[kk]] 0 <= kk < sl.len() ==> sl[kk].1 < sl.len(),
            forall|t: int, t2: int| 0 <= t < t2 < sl.len() ==> sl[t].1 != sl[t2].1,
            forall|j: int| 0 <= j < sl.len() ==> #[trigger] index_appears(sl, j),
            forall|i: int| 0 <= i < orig.len() ==> ps2[i].chars@ == orig[i].chars@,
            forall|t: int|
                0 <= t < sl.len() ==> #[trigger] Self::run_shape(pt, ps2, orig, sl, sl.len() - 1, t),
            first == sl[0].1,
            last == sl[sl.len() - 1].1,
            s.particles@.len() == ps2.len(),
            forall|i: int| 0 <= i < ps2.len() ==> s.particles@[i].chars == ps2[i].chars,
            forall|i: int|
                0 <= i < ps2.len() ==> s.particles@[i].next == (if i == last {
                    Err::<Next, NoNext>(NoNext { chain_start_idx: first })
                } else {
                    ps2[i].next
                }),
            forall|i: int|
                0 <= i < ps2.len() ==> s.particles@[i].prev == (if i == first {
                    Err::<Prev, NoPrev>(NoPrev { chain_end_idx: last })
                } else {
                    ps2[i].prev
                }),
            s.unconnected_on_right@ =~= seq![last],
            s.unconnected_on_left@ == Set::<usize>::empty(),
            s.starticle_idx == first,
            s.score == sum_chars(ps2) + sum_costs(ps2),
            s.bulk == sum_chars(ps2) + sum_pads(ps2),
        ensures
            s.wf(),
    {
        let n = sl.len();
        let ps = s.particles@;
        assert(Self::run_shape(pt, ps2, orig, sl, n - 1, n - 1));
        assert(ps2[last as int].next is Err);
        let mid = ps2.update(
            first as int,
            (Particle {
                chars: ps2[first as int].chars,
                next: ps2[first as int].next,
                prev: Err(NoPrev { chain_end_idx: last }),
            }),
        );
        lemma_sums_update(ps2, mid, first as int);
        lemma_sums_update(mid, ps, last as int);
        assert(sum_chars(ps) == sum_chars(ps2));
        assert(sum_costs(ps) == sum_costs(ps2));
        assert(sum_pads(ps) == sum_pads(ps2));
        assert(sl[n - 1].1 == last);
        assert forall|t: int|
            0 <= t < n implies #[trigger] Self::sealed_shape(ps, sl, first, last, t) by {
            assert(Self::run_shape(pt, ps2, orig, sl, n - 1, t));
            if 1 <= t {
                assert(Self::run_shape(pt, ps2, orig, sl, n - 1, t - 1));
            }
            if sl[t].1 == first {
                assert(t == 0);
            }
            if sl[t].1 == last {
                assert(t == n - 1);
            }
        }
        assert forall|i: int|
            0 <= i < n implies #[trigger] ps[i].chars.len() >= 1 && ps[i].chars.len()
                <= isize::MAX as usize by {
            assert(ps[i].chars@ == ps2[i].chars@);
            assert(orig[i].chars.len() >= 1 && orig[i].chars.len() <= isize::MAX as usize);
        }
        Self::lemma_seal_links(ps, sl, first, last);
        assert(s.links_ok()) by {
            reveal(State::links_ok);
        }
        assert forall|i: int|
            0 <= i < n && ps[i].next is Err implies s.unconnected_on_right@.contains(i as usize) by {
            assert(index_appears(sl, i));
            let t = choose|t: int| 0 <= t < sl.len() && #[trigger] sl[t].1 as int == i;
            assert(Self::sealed_shape(ps, sl, first, last, t));
            assert(t == n - 1);
            assert(s.unconnected_on_right@[0] == last);
        }
        assert(s.uor_ok()) by {
            reveal(State::uor_ok);
        }
        assert forall|i: int|
            0 <= i < n && i != s.starticle_idx && ps[i].prev is Err implies s
            .unconnected_on_left@.contains(i as usize) by {
            assert(index_appears(sl, i));
            let t = choose|t: int| 0 <= t < sl.len() && #[trigger] sl[t].1 as int == i;
            assert(Self::sealed_shape(ps, sl, first, last, t));
            assert(1 <= t ==> ps[i].prev is Ok);
            assert(t == 0 ==> i == first);
        }
        assert(s.uol_ok()) by {
            reveal(State::uol_ok);
        }
        assert(s.counts_ok());
        assert(s.starticle_ok());
        assert(s.score_ok());
        // the single sealed chain partitions the indices
        let c = order_indices(sl);
        assert(chain_shape(ps, c)) by {
            assert(c.len() == n);
            assert forall|t: int| 0 <= t < c.len() implies 0 <= #[trigger] c[t] < ps.len() by {
                assert(c[t] == sl[t].1 as int);
            }
            assert forall|t: int|
                0 <= t < c.len() - 1 implies (#[trigger] ps[c[t]].next) is Ok
                && ps[c[t]].next->Ok_0.next_idx as int == c[t + 1] by {
                assert(Self::sealed_shape(ps, sl, first, last, t));
            }
            assert(Self::sealed_shape(ps, sl, first, last, n - 1));
            assert(c[c.len() - 1] == last as int && c[0] == first as int);
            assert(Self::sealed_shape(ps, sl, first, last, 0));
        }
        assert(chains_partition(ps, s.chains@)) by {
            reveal(chains_partition);
            assert forall|k: int| 0 <= k < s.chains@.len() implies chain_shape(
                ps,
                #[trigger] s.chains@[k],
            ) by {
                assert(s.chains@[k] == c);
            }
            assert forall|i: int| 0 <= i < ps.len() implies some_chain_holds(s.chains@, i) by {
                assert(index_appears(sl, i));
                let t = choose|t: int| 0 <= t < sl.len() && #[trigger] sl[t].1 as int == i;
                assert(s.chains@[0][t] == i);
            }
            assert forall|k1: int, t1: int, k2: int, t2: int|
                #![trigger s.chains@[k1][t1], s.chains@[k2][t2]]
                0 <= k1 < s.chains@.len() && 0 <= t1 < s.chains@[k1].len() && 0 <= k2
                    < s.chains@.len() && 0 <= t2 < s.chains@[k2].len() && s.chains@[k1][t1]
                    == s.chains@[k2][t2] implies k1 == k2 && t1 == t2 by {
                assert(k1 == 0 && k2 == 0);
                assert(sl[t1].1 as int == sl[t2].1 as int);
            }
        }
    }

    /// Link the particles into one chain in the order of their recorded
    /// occurrences, deriving each edge from how neighbouring occurrences
    /// overlap in the rendered bytes. On an error the chain bookkeeping is
    /// left half-rebuilt and the state must be discarded.
    #[verifier::rlimit(100)]
    #[verifier::spinoff_prover]
    fn link_run(&mut self, sorted: &Vec<(usize, usize)>, portmantout: &Vec<u8>) -> (r: Result<
        (),
        StateError,
    >)
        requires
            old(self).wf(),
            old(self).particles@.len() >= 1,
            sorted@.len() == old(self).particles@.len(),
            forall|i: int| #![trigger old(self).particles@[i]]
                0 <= i < old(self).particles@.len() ==> old(self).particles@[i].next is Err
                    && old(self).particles@[i].prev is Err,
            forall|k: int| #![trigger sorted@[k]]
                0 <= k < sorted@.len() ==> sorted@[k].1 < sorted@.len() && matches_at(
                    portmantout@,
                    old(self).particles@[sorted@[k].1 as int].chars@,
                    sorted@[k].0 as int,
                ),
            forall|t: int, t2: int| 0 <= t < t2 < sorted@.len() ==> sorted@[t].1 != sorted@[t2].1,
            forall|j: int| 0 <= j < sorted@.len() ==> #[trigger] index_appears(sorted@, j),
            forall|k: int, l: int| 0 <= k < l < sorted@.len() ==> sorted@[k].0 <= sorted@[l].0,
        ensures
            final(self).particles@.len() == old(self).particles@.len(),
            forall|i: int|
                0 <= i < old(self).particles@.len()
                    ==> final(self).particles@[i].chars@ == old(self).particles@[i].chars@,
            r is Ok ==> final(self).wf() && final(self).unconnected_on_right@.len() == 1
                && final(self).unconnected_on_left@.len() == 0,
            r is Ok ==> final(self).starticle_idx == sorted@[0].1 && final(self).chains@
                == seq![order_indices(sorted@)] && linked_along(
                portmantout@,
                final(self).particles@,
                sorted@,
            ),
            r != Err::<(), StateError>(StateError::ParticleMissing),
    {
        let ghost pt = portmantout@;
        let ghost orig = self.particles@;
        let ghost sl = sorted@;
        let n = self.particles.len();
        let mut k: usize = 0;
        while k + 1 < n
            invariant
                orig == old(self).particles@,
                old(self).wf(),
                sl == sorted@,
                pt == portmantout@,
                n == self.particles@.len(),
                n == orig.len(),
                n == sl.len(),
                n >= 1,
                k <= n - 1,
                forall|i: int| #![trigger orig[i]]
                    0 <= i < n ==> orig[i].next is Err && orig[i].prev is Err,
                forall|kk: int| #![trigger sl[kk]]
                    0 <= kk < n ==> sl[kk].1 < n && matches_at(
                        pt,
                        orig[sl[kk].1 as int].chars@,
                        sl[kk].0 as int,
                    ),
                forall|t: int, t2: int| 0 <= t < t2 < n ==> sl[t].1 != sl[t2].1,
                forall|kk: int, l: int| 0 <= kk < l < n ==> sl[kk].0 <= sl[l].0,
                forall|i: int| 0 <= i < n ==> self.particles@[i].chars@ == orig[i].chars@,
                forall|t: int|
                    0 <= t < n ==> #[trigger] Self::run_shape(
                        pt,
                        self.particles@,
                        orig,
                        sl,
                        k as int,
                        t,
                    ),
                self.score == sum_chars(self.particles@) + sum_costs(self.particles@),
                self.bulk == sum_chars(self.particles@) + sum_pads(self.particles@),
                self.unconnected_on_right == old(self).unconnected_on_right,
                self.unconnected_on_left == old(self).unconnected_on_left,
                self.starticle_idx == old(self).starticle_idx,
            decreases n - k,
        {
            let ia = sorted[k].1;
            let ib = sorted[k + 1].1;
            let sa = sorted[k].0;
            let sb = sorted[k + 1].0;
            assert(ia < n && ib < n && ia != ib);
            let ghost ca = self.particles@[ia as int].chars@;
            let ghost cb = self.particles@[ib as int].chars@;
            proof {
                assert(matches_at(pt, ca, sa as int) && matches_at(pt, cb, sb as int));
                assert(sa <= sb);
            }
            let derived = Self::derive_edge(
                portmantout,
                sa,
                &self.particles[ia].chars,
                sb,
                &self.particles[ib].chars,
            );
            let (edge, cost, pad) = match derived {
                Ok(ecp) => ecp,
                Err(what) => {
                    return Err(what);
                },
            };
            proof {
                assert(edge_ok(ca, edge, cb));
            }
            let new_score: i128 = self.score as i128 + cost as i128;
            let new_bulk: i128 = self.bulk as i128 + pad as i128;
            if new_score > isize::MAX as i128 || new_score < isize::MIN as i128 || new_bulk
                > isize::MAX as i128 || new_bulk < isize::MIN as i128 {
                return Err(StateError::Oversize);
            }
            proof {
                assert(Self::run_shape(pt, self.particles@, orig, sl, k as int, k as int));
                assert(Self::run_shape(pt, self.particles@, orig, sl, k as int, k + 1));
                assert(orig[ia as int].next is Err && orig[ib as int].prev is Err);
            }
            let ghost ps0 = self.particles@;
            let ghost the_edge = edge;
            set_next(&mut self.particles, ia, Ok(Next { next_idx: ib, edge }));
            let ghost ps1 = self.particles@;
            set_prev(&mut self.particles, ib, Ok(Prev { prev_idx: ia }));
            let ghost ps2 = self.particles@;
            self.score = self.score + cost;
            self.bulk = self.bulk + pad;
            proof {
                lemma_sums_update(ps0, ps1, ia as int);
                lemma_sums_update(ps1, ps2, ib as int);
                assert forall|i: int|
                    0 <= i < ps2.len() implies (#[trigger] ps2[i]).chars == ps0[i].chars && (
                ps2[i].next == (if i == ia as int {
                    Ok::<Next, NoNext>(Next { next_idx: ib, edge: the_edge })
                } else {
                    ps0[i].next
                })) && (ps2[i].prev == (if i == ib as int {
                    Ok::<Prev, NoPrev>(Prev { prev_idx: ia })
                } else {
                    ps0[i].prev
                })) by {}
                lemma_run_shape_step(pt, ps0, ps2, orig, sl, k as int, the_edge);
            }
            k += 1;
        }
        proof {
            assert(forall|i: int| #![trigger orig[i]]
                0 <= i < orig.len() ==> orig[i].chars.len() >= 1 && orig[i].chars.len()
                    <= isize::MAX as usize) by {
                reveal(State::links_ok);
            }
        }
        let first = sorted[0].1;
        let last = sorted[n - 1].1;
        assert(first < n && last < n);
        let ghost ps2 = self.particles@;
        self.seal_writes(first, last);
        proof {
            self.chains@ = seq![order_indices(sl)];
            Self::lemma_sealed_wf(*self, orig, sl, ps2, first, last, pt);
            assert forall|t: int| #![trigger sl[t]]
                0 <= t < sl.len() - 1 implies {
                &&& self.particles@[sl[t].1 as int].next is Ok
                &&& self.particles@[sl[t].1 as int].next->Ok_0.next_idx == sl[t + 1].1
                &&& edge_matches_span(
                    pt,
                    self.particles@[sl[t].1 as int].next->Ok_0.edge,
                    sl[t].0 + self.particles@[sl[t].1 as int].chars@.len(),
                    sl[t + 1].0 as int,
                )
            } by {
                assert(Self::run_shape(pt, ps2, orig, sl, n - 1, t));
                if sl[t].1 == last {
                    assert(sl[t].1 == sl[n - 1].1);
                    assert(false);
                }
                assert(self.particles@[sl[t].1 as int].next == ps2[sl[t].1 as int].next);
                assert(self.particles@[sl[t].1 as int].chars == ps2[sl[t].1 as int].chars);
            }
            assert(linked_along(pt, self.particles@, sl));
        }
        Ok(())
    }

    /// Rebuild the chain from a previously rendered portmantout: find each
    /// particle's first occurrence, order the particles by position, and
    /// derive each edge from how neighbouring occurrences overlap. The
    /// first particle in that order heads the rebuilt chain. On an error
    /// the chain bookkeeping may be left half-rebuilt and the state must
    /// be discarded.
    #[verifier::rlimit(100)]
    pub fn resume(&mut self, portmantout: &Vec<u8>) -> (r: Result<(), StateError>)
        requires
            old(self).wf(),
            old(self).particles@.len() >= 1,
            forall|i: int| #![trigger old(self).particles@[i]]
                0 <= i < old(self).particles@.len() ==> old(self).particles@[i].next is Err
                    && old(self).particles@[i].prev is Err,
        ensures
            final(self).particles@.len() == old(self).particles@.len(),
            forall|i: int|
                0 <= i < old(self).particles@.len()
                    ==> final(self).particles@[i].chars@ == old(self).particles@[i].chars@,
            r is Ok ==> final(self).wf() && final(self).unconnected_on_right@.len() == 1
                && final(self).unconnected_on_left@.len() == 0 && (forall|i: int|
                0 <= i < old(self).particles@.len() ==> is_substring(
                    portmantout@,
                    old(self).particles@[i].chars@,
                )),
            r is Ok ==> exists|sl: Seq<(usize, usize)>| #[trigger] resume_layout(
                portmantout@,
                old(self).particles@,
                *final(self),
                sl,
            ),
            r == Err::<(), StateError>(StateError::ParticleMissing) ==> exists|i: int|
                0 <= i < old(self).particles@.len() && !is_substring(
                    portmantout@,
                    old(self).particles@[i].chars@,
                ),
    {
        let ghost pt = portmantout@;
        let ghost orig = self.particles@;
        let n = self.particles.len();
        let mut positions: Vec<(usize, usize)> = Vec::new();
        let mut i: usize = 0;
        while i < n
            invariant
                *self == *old(self),
                old(self).wf(),
                n == self.particles@.len(),
                pt == portmantout@,
                i <= n,
                positions@.len() == i,
                forall|k: int| #![trigger positions@[k]]
                    0 <= k < i ==> positions@[k].1 == k && matches_at(
                        pt,
                        self.particles@[k].chars@,
                        positions@[k].0 as int,
                    ) && (forall|j: int|
                        0 <= j < positions@[k].0 ==> !matches_at(
                            pt,
                            self.particles@[k].chars@,
                            j,
                        )),
            decreases n - i,
        {
            let found = find_first_occurrence(portmantout, &self.particles[i].chars);
            match found {
                None => {
                    proof {
                        assert(!is_substring(pt, self.particles@[i as int].chars@));
                    }
                    return Err(StateError::ParticleMissing);
                },
                Some(st) => {
                    positions.push((st, i));
                },
            }
            i += 1;
        }
        let ghost pos0 = positions@;
        let mut sorted = positions;
        sort_by_start(&mut sorted);
        let ghost sl = sorted@;
        proof {
            assert forall|k: int| 0 <= k < n implies #[trigger] sl[k].1 < n && matches_at(
                pt,
                self.particles@[sl[k].1 as int].chars@,
                sl[k].0 as int,
            ) by {
                assert(record_from(sl, pos0, k));
                let k2 = choose|k2: int| 0 <= k2 < pos0.len() && sl[k] == pos0[k2];
                assert(pos0[k2].1 == k2);
            }
        }
        proof {
            // the sort only rearranged the records, so each particle's
            // record is still present, exactly once
            broadcast use vstd::seq_lib::group_to_multiset_ensures;
            broadcast use vstd::multiset::group_multiset_axioms;

            assert(pos0.no_duplicates()) by {
                assert forall|a: int, b: int|
                    0 <= a < b < pos0.len() implies pos0[a] != pos0[b] by {
                    assert(pos0[a].1 == a as usize && pos0[b].1 == b as usize);
                }
            }
            assert forall|j: int| 0 <= j < n implies #[trigger] index_appears(sl, j) by {
                assert(pos0[j].1 == j as usize);
                assert(pos0.contains(pos0[j]));
                assert(pos0.to_multiset().count(pos0[j]) > 0);
                assert(sl.to_multiset().count(pos0[j]) > 0);
                assert(sl.contains(pos0[j]));
                let t = choose|t: int| 0 <= t < sl.len() && sl[t] == pos0[j];
                assert(sl[t].1 as int == j);
            }
            assert forall|t1: int, t2: int|
                0 <= t1 < t2 < n implies sl[t1].1 != sl[t2].1 by {
                if sl[t1].1 == sl[t2].1 {
                    assert(record_from(sl, pos0, t1));
                    assert(record_from(sl, pos0, t2));
                    let ka = choose|ka: int| 0 <= ka < pos0.len() && sl[t1] == #[trigger] pos0[ka];
                    let kb = choose|kb: int| 0 <= kb < pos0.len() && sl[t2] == #[trigger] pos0[kb];
                    assert(pos0[ka].1 == ka as usize && pos0[kb].1 == kb as usize);
                    assert(ka == kb);
                    let x = sl[t1];
                    assert(sl[t2] == x);
                    assert(sl.remove(t1).to_multiset() == sl.to_multiset().remove(x));
                    assert(sl.remove(t1)[t2 - 1] == x);
                    assert(sl.remove(t1).contains(x));
                    assert(sl.remove(t1).to_multiset().count(x) > 0);
                    assert(sl.to_multiset().count(x) >= 2);
                    pos0.lemma_multiset_has_no_duplicates();
                    assert(pos0.to_multiset().count(x) <= 1);
                    assert(false);
                }
            }
        }
        let outcome = self.link_run(&sorted, portmantout);
        proof {
            if outcome is Ok {
                assert forall|ii: int| 0 <= ii < n implies is_substring(
                    pt,
                    orig[ii].chars@,
                ) by {
                    assert(index_appears(sl, ii));
                    let t = choose|t: int| 0 <= t < sl.len() && #[trigger] sl[t].1 as int == ii;
                    assert(matches_at(pt, orig[sl[t].1 as int].chars@, sl[t].0 as int));
                }
                // the sorted records witness the rebuilt layout
                assert forall|kx: int| #![trigger sl[kx]]
                    0 <= kx < sl.len() implies {
                    &&& sl[kx].1 < orig.len()
                    &&& matches_at(pt, orig[sl[kx].1 as int].chars@, sl[kx].0 as int)
                    &&& (forall|j: int|
                        0 <= j < sl[kx].0 ==> !matches_at(pt, orig[sl[kx].1 as int].chars@, j))
                } by {
                    assert(record_from(sl, pos0, kx));
                    let k2 = choose|k2: int| 0 <= k2 < pos0.len() && sl[kx] == pos0[k2];
                    assert(pos0[k2].1 == k2);
                }
                assert(resume_layout(pt, orig, *self, sl));
            }
        }
        match outcome {
            Ok(()) => Ok(()),
            Err(what) => Err(what),
        }
    }

    /// Randomly link chains until one remains. Each pass picks a chain
    /// tail, finds its cheapest edge to another chain's head through
    /// `find_next`, and joins the two chains, keeping the score exact.
    /// While more than one head is available the tail is drawn uniformly;
    /// for the last head only the tail of the starticle's chain may take
    /// it, so the starticle ends up heading the single final chain.
    #[verifier::rlimit(100)]
    pub fn coalesce(&mut self, words_trie: &ByteTrie, rng: &mut rand::rngs::StdRng) -> (r: Result<
        (),
        StateError,
    >)
        requires
            old(self).wf(),
        ensures
            final(self).wf(),
            final(self).particles@.len() == old(self).particles@.len(),
            final(self).starticle_idx == old(self).starticle_idx,
            forall|i: int|
                0 <= i < old(self).particles@.len() ==> final(self).particles@[i].chars@ == old(self).particles@[i].chars@,
            forall|i: int| #![trigger old(self).particles@[i]]
                0 <= i < old(self).particles@.len() && old(self).particles@[i].next is Ok
                ==> final(self).particles@[i].next == old(self).particles@[i].next,
            forall|i: int| #![trigger final(self).particles@[i]]
                0 <= i < old(self).particles@.len() && old(self).particles@[i].next is Err
                    && final(self).particles@[i].next is Ok ==> padded_edge_justified(
                    final(self).particles@,
                    i,
                    trie_contents(*words_trie),
                ),
            r is Ok ==> final(self).unconnected_on_right@.len() == 1
                && final(self).unconnected_on_left@.len() == 0,
            r is Ok ==> final(self).chains@.len() == 1 && final(self).chains@[0][0]
                == final(self).starticle_idx as int && final(self).unconnected_on_right@[0] as int
                == final(self).chains@[0][final(self).chains@[0].len() - 1],
            r is Err ==> r == Err::<(), StateError>(StateError::NoCandidate) || r == Err::<
                (),
                StateError,
            >(StateError::Oversize),
            joiners_cover_pairs(trie_contents(*words_trie)) ==> r is Ok,
    {
        let ghost orig = self.particles@;
        let ghost st0 = self.starticle_idx;
        let ghost words = trie_contents(*words_trie);
        let n = self.particles.len();

        let mut particles_trie = self.build_heads_trie();
        loop
            invariant
                self.wf(),
                n == self.particles@.len(),
                n == orig.len(),
                self.starticle_idx == st0,
                st0 == old(self).starticle_idx,
                orig == old(self).particles@,
                words == trie_contents(*words_trie),
                trie_contents(particles_trie).dom().finite(),
                heads_trie_ok(*self, trie_contents(particles_trie)),
                forall|i: int| 0 <= i < n ==> self.particles@[i].chars@ == orig[i].chars@,
                forall|i: int| #![trigger orig[i]]
                    0 <= i < n && orig[i].next is Ok ==> self.particles@[i].next == orig[i].next,
                forall|i: int| #![trigger self.particles@[i]]
                    0 <= i < n && orig[i].next is Err && self.particles@[i].next is Ok
                        ==> padded_edge_justified(self.particles@, i, words),
            ensures
                trie_contents(particles_trie).dom().len() == 0,
            decreases trie_contents(particles_trie).dom().len(),
        {
            let pt_len = trie_len(&particles_trie);
            if pt_len == 0 {
                break;
            }
            let stepped = self.coalesce_step(words_trie, &mut particles_trie, rng, Ghost(orig));
            match stepped {
                Ok(()) => {},
                Err(what) => {
                    return Err(what);
                },
            }
        }
        proof {
            reveal(State::uol_ok);
            reveal(heads_trie_ok);
            // an occupied head set would keep a key in the trie
            if self.unconnected_on_left@.len() != 0 {
                let h = self.unconnected_on_left@.choose();
                assert(self.unconnected_on_left@.contains(h));
                assert(trie_contents(particles_trie).contains_key(
                    self.particles@[h as int].chars@,
                ));
            }
            assert(self.unconnected_on_left@.len() == 0);
            // with no unclaimed heads left, the starticle heads the only
            // chain, and the lone queued index is its tail
            let cs = self.chains@;
            let (ks, ts) = lemma_find_chain(*self, self.starticle_idx as int);
            assert(ts == 0);
            reveal(chains_partition);
            assert forall|k: int| 0 <= k < cs.len() implies k == ks && 0 <= (#[trigger] cs[k]).len() by {
                assert(chain_shape(self.particles@, cs[k]));
                let h = cs[k][0];
                assert(self.particles@[h].prev is Err);
                if h != self.starticle_idx {
                    assert(self.unconnected_on_left@.contains(h as usize));
                    vstd::set_lib::lemma_set_empty_equivalency_len(self.unconnected_on_left@);
                    assert(false);
                }
                assert(cs[k][0] == cs[ks][0]);
            }
            assert(0 <= ks < cs.len());
            if cs.len() != 1 {
                if cs.len() == 0 {
                    assert(false);
                } else {
                    assert(0 <= cs[0].len() && 0 <= cs[cs.len() - 1].len());
                    assert(0 == ks && cs.len() - 1 == ks);
                    assert(false);
                }
            }
            assert(cs[0][0] == self.starticle_idx as int);
            assert(self.unconnected_on_right@.len() == 1);
            let u0 = self.unconnected_on_right@[0];
            assert(u0 < n && self.particles@[u0 as int].next is Err) by {
                reveal(State::uor_ok);
            }
            let (ku, tu) = lemma_find_chain(*self, u0 as int);
            assert(ku == 0 && tu == cs[0].len() - 1);
            assert(u0 as int == cs[0][cs[0].len() - 1]);
        }
        Ok(())
    }

    /// Cut the live edge out of `p`, splitting its chain in two: the old
    /// chain head `cs` now records `p` as its chain's end, and the old
    /// chain end `ce` records `right`, the cut edge's target, as its head.
    #[verifier::rlimit(100)]
    #[verifier::spinoff_prover]
    fn cut_pair(&mut self, p: usize, right: usize, cs: usize, ce: usize, cost: isize, pad: isize)
        requires
            old(self).wf(),
            p < old(self).particles@.len(),
            right < old(self).particles@.len(),
            cs < old(self).particles@.len(),
            ce < old(self).particles@.len(),
            old(self).particles@[p as int].next is Ok,
            old(self).particles@[p as int].next->Ok_0.next_idx == right,
            cost as int == old(self).particles@[p as int].next->Ok_0.edge.spec_score(),
            pad as int == pad_of(old(self).particles@[p as int].next->Ok_0.edge),
            old(self).particles@[ce as int].next is Err,
            old(self).particles@[cs as int].prev is Err,
            exists|k: int, t: int|
                #![trigger old(self).chains@[k][t]]
                0 <= k < old(self).chains@.len() && 0 <= t < old(self).chains@[k].len() - 1
                    && old(self).chains@[k][t] == p as int && cs as int
                    == old(self).chains@[k][0] && ce as int == old(self).chains@[k][old(
                    self,
                ).chains@[k].len() - 1],
            old(self).score - cost <= isize::MAX,
            old(self).score - cost >= isize::MIN,
            old(self).bulk - pad <= isize::MAX,
            old(self).bulk - pad >= isize::MIN,
        ensures
            final(self).wf(),
            final(self).particles@.len() == old(self).particles@.len(),
            final(self).starticle_idx == old(self).starticle_idx,
            forall|i: int|
                0 <= i < old(self).particles@.len()
                    ==> final(self).particles@[i].chars@ == old(self).particles@[i].chars@,
            forall|i: int| #![trigger final(self).particles@[i].next]
                0 <= i < old(self).particles@.len() && i != p && i != ce
                    ==> final(self).particles@[i].next == old(self).particles@[i].next,
            final(self).particles@[p as int].next is Err,
            final(self).particles@[ce as int].next is Err,
            final(self).unconnected_on_right@.len() == old(self).unconnected_on_right@.len() + 1,
            final(self).score == old(self).score - cost,
            final(self).bulk == old(self).bulk - pad,
    {
        proof {
            reveal(State::links_ok);
            reveal(State::uor_ok);
            reveal(State::uol_ok);
        }
        let ghost ps0 = self.particles@;
        assert(cs != right && ce != p);
        assert(right != self.starticle_idx);
        let ghost uor0 = self.unconnected_on_right@;
        let ghost uol0 = self.unconnected_on_left@;
        set_prev(&mut self.particles, cs, Err(NoPrev { chain_end_idx: p }));
        let ghost ps1 = self.particles@;
        set_next(&mut self.particles, ce, Err(NoNext { chain_start_idx: right }));
        let ghost ps2 = self.particles@;
        set_prev(&mut self.particles, right, Err(NoPrev { chain_end_idx: ce }));
        let ghost ps3 = self.particles@;
        set_next(&mut self.particles, p, Err(NoNext { chain_start_idx: cs }));
        let ghost ps4 = self.particles@;
        self.unconnected_on_right.push(p);
        self.unconnected_on_left.insert(right);
        self.score = self.score - cost;
        self.bulk = self.bulk - pad;
        proof {
            reveal(State::links_ok);
            reveal(State::uor_ok);
            reveal(State::uol_ok);
            let n = ps0.len();
            let ghost ps = self.particles@;
            assert(ps.len() == n);
            assert(forall|i: int| 0 <= i < n ==> ps[i].chars == ps0[i].chars);
            assert(forall|i: int|
                0 <= i < n ==> ps[i].next == (if i == p {
                    Err::<Next, NoNext>(NoNext { chain_start_idx: cs })
                } else if i == ce {
                    Err::<Next, NoNext>(NoNext { chain_start_idx: right })
                } else {
                    ps0[i].next
                }));
            assert(forall|i: int|
                0 <= i < n ==> ps[i].prev == (if i == right {
                    Err::<Prev, NoPrev>(NoPrev { chain_end_idx: ce })
                } else if i == cs {
                    Err::<Prev, NoPrev>(NoPrev { chain_end_idx: p })
                } else {
                    ps0[i].prev
                }));
            lemma_sums_update(ps0, ps1, cs as int);
            lemma_sums_update(ps1, ps2, ce as int);
            lemma_sums_update(ps2, ps3, right as int);
            lemma_sums_update(ps3, ps4, p as int);
            assert(sum_chars(ps4) == sum_chars(ps0));
            assert(sum_costs(ps4) == sum_costs(ps0) - ps0[p as int].next->Ok_0.edge.spec_score());
            assert(sum_pads(ps4) == sum_pads(ps0) - pad_of(ps0[p as int].next->Ok_0.edge));
            assert(self.score_ok());
            assert forall|i: int| #![trigger ps[i]]
                0 <= i < n && ps[i].next is Ok implies {
                &&& ps[i].next->Ok_0.next_idx < n
                &&& ps[ps[i].next->Ok_0.next_idx as int].prev == Ok::<Prev, NoPrev>(
                    Prev { prev_idx: i as usize },
                )
                &&& edge_ok(
                    ps[i].chars@,
                    ps[i].next->Ok_0.edge,
                    ps[ps[i].next->Ok_0.next_idx as int].chars@,
                )
            } by {
                let j = ps[i].next->Ok_0.next_idx;
                assert(ps0[i].next is Ok);
                assert(ps0[j as int].prev == Ok::<Prev, NoPrev>(Prev { prev_idx: i as usize }));
                assert(j != right && j != cs);
            }
            assert forall|i: int| #![trigger ps[i]]
                0 <= i < n && ps[i].prev is Ok implies {
                &&& ps[i].prev->Ok_0.prev_idx < n
                &&& ps[ps[i].prev->Ok_0.prev_idx as int].next is Ok
                &&& ps[ps[i].prev->Ok_0.prev_idx as int].next->Ok_0.next_idx == i
            } by {
                let j = ps[i].prev->Ok_0.prev_idx;
                assert(ps0[i].prev is Ok);
                assert(ps0[j as int].next is Ok && ps0[j as int].next->Ok_0.next_idx == i);
                assert(j != p && j != ce);
            }
            assert(self.links_ok());
            assert(!uor0.contains(p));
            assert forall|k: int, l: int|
                0 <= k < l < self.unconnected_on_right@.len() implies self.unconnected_on_right@[k]
                != self.unconnected_on_right@[l] by {
                if l == self.unconnected_on_right@.len() - 1 {
                    assert(self.unconnected_on_right@[k] == uor0[k]);
                    assert(uor0.contains(uor0[k]));
                }
            }
            assert forall|i: int|
                0 <= i < n && ps[i].next is Err implies self.unconnected_on_right@.contains(
                i as usize) by {
                if i == p as int {
                    assert(self.unconnected_on_right@[uor0.len() as int] == p);
                } else {
                    assert(ps0[i].next is Err);
                    assert(uor0.contains(i as usize));
                    let k = choose|k: int| 0 <= k < uor0.len() && uor0[k] == i as usize;
                    assert(self.unconnected_on_right@[k] == i as usize);
                }
            }
            assert(self.uor_ok());
            assert(!uol0.contains(right));
            assert forall|i: int|
                0 <= i < n && i != self.starticle_idx && ps[i].prev is Err implies self
                .unconnected_on_left@.contains(i as usize) by {
                if i != right as int && i != cs as int {
                    assert(ps0[i].prev is Err);
                }
            }
            assert(self.uol_ok());
            assert(self.counts_ok());
            assert(self.starticle_ok());
            // record the split of the chain holding `p`
            let cs0 = old(self).chains@;
            let (kc, tc): (int, int) = choose|kc: int, tc: int|
                #![trigger cs0[kc][tc]]
                0 <= kc < cs0.len() && 0 <= tc < cs0[kc].len() - 1 && cs0[kc][tc] == p as int
                    && cs as int == cs0[kc][0] && ce as int == cs0[kc][cs0[kc].len() - 1];
            assert(chain_shape(ps0, cs0[kc])) by {
                reveal(chains_partition);
            }
            assert(cs0[kc][tc + 1] == right as int);
            self.chains@ = split_chain_list(cs0, kc, tc);
            lemma_split_chains(ps0, self.particles@, cs0, kc, tc);
            assert(self.wf());
        }
    }

    /// Walk a chain rightwards from `from` to its unconnected end. The
    /// walk stays inside the chain holding `from`, so it always reaches
    /// that chain's tail, which records the chain's head.
    fn find_chain_end(&self, from: usize) -> (r: Option<(usize, usize)>)
        requires
            self.wf(),
            from < self.particles@.len(),
        ensures
            r is Some,
            ({
                let pair = r->0;
                &&& pair.0 < self.particles@.len()
                &&& pair.1 < self.particles@.len()
                &&& self.particles@[pair.0 as int].next is Err
                &&& self.particles@[pair.0 as int].next->Err_0.chain_start_idx == pair.1
                &&& exists|k: int|
                    0 <= k < self.chains@.len() && (#[trigger] self.chains@[k]).contains(
                        from as int,
                    ) && pair.0 as int == self.chains@[k][self.chains@[k].len() - 1]
                        && pair.1 as int == self.chains@[k][0]
            }),
    {
        let ghost cs = self.chains@;
        let ghost mut kk: int = 0;
        let ghost mut tt: int = 0;
        proof {
            let (k0, t0) = lemma_find_chain(*self, from as int);
            kk = k0;
            tt = t0;
            reveal(chains_partition);
            assert forall|t1: int, t2: int|
                0 <= t1 < t2 < cs[kk].len() implies cs[kk][t1] != cs[kk][t2] by {
                if cs[kk][t1] == cs[kk][t2] {
                    assert(cs[kk][t1] == cs[kk][t2]);
                }
            }
            assert(chain_shape(self.particles@, cs[kk]));
            lemma_distinct_in_range_bound(cs[kk], self.particles@.len() as int);
            assert(cs[kk].contains(from as int));
        }
        let n = self.particles.len();
        let mut current = from;
        let mut fuel = n;
        loop
            invariant
                self.wf(),
                n == self.particles@.len(),
                cs == self.chains@,
                0 <= kk < cs.len(),
                0 <= tt < cs[kk].len(),
                cs[kk][tt] == current as int,
                cs[kk].contains(from as int),
                current < n,
                fuel >= cs[kk].len() - 1 - tt,
            decreases fuel,
        {
            proof {
                reveal(chains_partition);
                assert(chain_shape(self.particles@, cs[kk]));
            }
            match &self.particles[current].next {
                Ok(nx) => {
                    proof {
                        assert(tt < cs[kk].len() - 1);
                        tt = tt + 1;
                    }
                    current = nx.next_idx;
                },
                Err(nn) => {
                    proof {
                        assert(tt == cs[kk].len() - 1);
                    }
                    return Some((current, nn.chain_start_idx));
                },
            }
            if fuel == 0 {
                proof {
                    assert(false);
                }
                return None;
            }
            fuel -= 1;
        }
    }

    /// Cut each live edge independently with probability `p_num` in 10000,
    /// splitting its chain in two and restoring the endpoint bookkeeping of
    /// both halves. Edges are only removed, never added or changed, so the
    /// pass always succeeds.
    #[verifier::rlimit(100)]
    pub fn break_chains(&mut self, rng: &mut rand::rngs::StdRng, p_num: usize) -> (r: Result<
        (),
        StateError,
    >)
        requires
            old(self).wf(),
        ensures
            final(self).wf(),
            final(self).particles@.len() == old(self).particles@.len(),
            final(self).starticle_idx == old(self).starticle_idx,
            forall|i: int|
                0 <= i < old(self).particles@.len()
                    ==> final(self).particles@[i].chars@ == old(self).particles@[i].chars@,
            forall|i: int| #![trigger final(self).particles@[i].next]
                0 <= i < old(self).particles@.len() && final(self).particles@[i].next is Ok
                    ==> final(self).particles@[i].next == old(self).particles@[i].next,
            r is Ok,
    {
        let ghost orig = self.particles@;
        let ghost st0 = self.starticle_idx;
        let n = self.particles.len();
        let mut particle_idx: usize = 0;
        while particle_idx < n
            invariant
                self.wf(),
                n == self.particles@.len(),
                n == orig.len(),
                self.starticle_idx == st0,
                st0 == old(self).starticle_idx,
                orig == old(self).particles@,
                forall|i: int| 0 <= i < n ==> self.particles@[i].chars@ == orig[i].chars@,
                forall|i: int| #![trigger self.particles@[i].next]
                    0 <= i < n && self.particles@[i].next is Ok ==> self.particles@[i].next
                        == orig[i].next,
            decreases n - particle_idx,
        {
            let has_edge = match &self.particles[particle_idx].next {
                Ok(_) => true,
                Err(_) => false,
            };
            let cut_now = if has_edge {
                rng_below(rng, 10000) < p_num
            } else {
                false
            };
            if cut_now {
                assert(self.particles@[particle_idx as int].next is Ok);
                assert({
                    let nx = self.particles@[particle_idx as int].next->Ok_0;
                    &&& nx.next_idx < n
                    &&& (match nx.edge {
                        Edge::Overlapped(nn) => nn <= isize::MAX as usize,
                        Edge::Padded { padding } => padding.len() <= isize::MAX as usize,
                    })
                }) by {
                    reveal(State::links_ok);
                }
                let (right, cost, pad) = match &self.particles[particle_idx].next {
                    Ok(nx) => {
                        match &nx.edge {
                            Edge::Overlapped(nn) => (nx.next_idx, -(*nn as isize), 0isize),
                            Edge::Padded { padding } => {
                                let l = padding.len() as isize;
                                (nx.next_idx, l, l)
                            },
                        }
                    },
                    Err(_) => {
                        proof {
                            assert(false);
                        }
                        (0, 0isize, 0isize)
                    },
                };
                proof {
                    // cutting an edge moves the score towards the bulk
                    // and keeps both inside the machine range
                    lemma_wf_cost_bounds(*self);
                    let ps0 = self.particles@;
                    let pcut = Particle {
                        chars: ps0[particle_idx as int].chars,
                        next: Err(NoNext { chain_start_idx: 0 }),
                        prev: ps0[particle_idx as int].prev,
                    };
                    let ps1 = ps0.update(particle_idx as int, pcut);
                    lemma_sums_update(ps0, ps1, particle_idx as int);
                    assert(cost as int == edge_cost(ps0[particle_idx as int]));
                    assert(pad as int == edge_pad(ps0[particle_idx as int]));
                    assert forall|i: int|
                        0 <= i < ps1.len() implies -chars_weight(#[trigger] ps1[i]) <= edge_cost(
                        ps1[i],
                    ) && edge_cost(ps1[i]) <= edge_pad(ps1[i]) by {
                        if i != particle_idx {
                            assert(ps1[i] == ps0[i]);
                        }
                    }
                    lemma_sums_bounded(ps1);
                    assert(self.score - cost == sum_chars(ps1) + sum_costs(ps1));
                    assert(self.bulk - pad == sum_chars(ps1) + sum_pads(ps1));
                    lemma_sums_nonneg(ps1);
                    assert(self.score - cost >= 0);
                    assert(self.bulk - pad >= 0);
                    assert(self.score - cost <= self.bulk - pad);
                }
                let ends = self.find_chain_end(right);
                let (ce, cs) = match ends {
                    Some(pair) => pair,
                    None => {
                        proof {
                            assert(false);
                        }
                        (0, 0)
                    },
                };
                proof {
                    // the walk ended at the tail of the pick's own chain
                    let (kp, tp) = lemma_find_chain(*self, particle_idx as int);
                    reveal(chains_partition);
                    assert(chain_shape(self.particles@, self.chains@[kp]));
                    if tp == self.chains@[kp].len() - 1 {
                        assert(self.particles@[particle_idx as int].next is Err);
                        assert(false);
                    }
                    assert(self.chains@[kp][tp + 1] == right as int);
                    let kf = choose|kf: int|
                        0 <= kf < self.chains@.len() && (#[trigger] self.chains@[kf]).contains(
                            right as int,
                        ) && ce as int == self.chains@[kf][self.chains@[kf].len() - 1]
                            && cs as int == self.chains@[kf][0];
                    let tf = choose|tf: int|
                        0 <= tf < self.chains@[kf].len() && self.chains@[kf][tf] == right as int;
                    assert(self.chains@[kf][tf] == self.chains@[kp][tp + 1]);
                    assert(kf == kp);
                    assert(self.particles@[cs as int].prev is Err);
                    assert(self.particles@[ce as int].next is Err);
                }
                self.cut_pair(particle_idx, right, cs, ce, cost, pad);
            }
            particle_idx += 1;
        }
        Ok(())
    }

    /// Write out the chain headed by the starticle: every particle's
    /// bytes, with each overlap written once and each padding in between.
    pub fn render(&self) -> (r: Result<Vec<u8>, StateError>)
        requires
            self.wf(),
        ensures
            r is Ok,
            match r {
                Ok(v) => spec_render(*self) == Some(v@),
                Err(_) => spec_render(*self) is None,
            },
    {
        proof {
            lemma_wf_renders(*self);
        }
        let ghost ps = self.particles@;
        let n = self.particles.len();
        let mut out: Vec<u8> = Vec::new();
        let mut current = self.starticle_idx;
        let mut fuel = n;
        loop
            invariant
                self.wf(),
                ps == self.particles@,
                n == ps.len(),
                current < n,
                fuel <= n,
                spec_render(*self) is Some,
                ({
                    let tail = render_from(ps, current as int, fuel as nat);
                    &&& (tail is Some ==> spec_render(*self) == Some(out@ + tail->0))
                    &&& (tail is None ==> spec_render(*self) is None)
                }),
            decreases fuel,
        {
            assert({
                let pi = ps[current as int];
                pi.next is Ok ==> (pi.next->Ok_0.next_idx < n && edge_ok(
                    pi.chars@,
                    pi.next->Ok_0.edge,
                    ps[pi.next->Ok_0.next_idx as int].chars@,
                ))
            }) by {
                reveal(State::links_ok);
            }
            match &self.particles[current].next {
                Err(_) => {
                    let mut chunk = clone_bytes(&self.particles[current].chars);
                    out.append(&mut chunk);
                    return Ok(out);
                },
                Ok(nx) => {
                    if fuel == 0 {
                        return Err(StateError::BrokenInvariant);
                    }
                    match &nx.edge {
                        Edge::Overlapped(nn) => {
                            let keep = self.particles[current].chars.len() - *nn;
                            let mut chunk = copy_range(&self.particles[current].chars, 0, keep);
                            out.append(&mut chunk);
                        },
                        Edge::Padded { padding } => {
                            let mut chunk = clone_bytes(&self.particles[current].chars);
                            out.append(&mut chunk);
                            let mut pad_chunk = clone_bytes(padding);
                            out.append(&mut pad_chunk);
                        },
                    }
                    current = nx.next_idx;
                    fuel -= 1;
                },
            }
        }
    }

    /// The endpoint count relation that must hold between passes.
    pub fn sanity_check(&self) -> (r: bool)
        ensures
            r == (self.unconnected_on_right@.len() == self.unconnected_on_left@.len() + 1),
    {
        let a = self.unconnected_on_right.len();
        let b = self.unconnected_on_left.len();
        a >= 1 && a - 1 == b
    }
}

} // verus!
