//! The annealing outer loop's verified parts: duplicating a state so a
//! perturbed candidate can be compared against the best one, and the
//! strict-improvement acceptance rule.

use vstd::prelude::*;
use std::collections::HashSet;
use crate::search::{
    State, Particle, Next, NoNext, Prev, NoPrev, Edge, clone_bytes, edge_ok, sum_chars, sum_costs,
    sum_pads, lemma_sums_push, chain_shape, chains_partition,
};

verus! {

broadcast use vstd::std_specs::hash::group_hash_axioms;

pub use crate::search::BytesTrieKey;

/// The two edges carry the same data.
pub open spec fn edge_data_eq(a: Edge, b: Edge) -> bool {
    match (a, b) {
        (Edge::Overlapped(n1), Edge::Overlapped(n2)) => n1 == n2,
        (Edge::Padded { padding: p1 }, Edge::Padded { padding: p2 }) => p1@ == p2@,
        _ => false,
    }
}

/// The two particles carry the same bytes and links.
pub open spec fn particle_data_eq(a: Particle, b: Particle) -> bool {
    &&& a.chars@ == b.chars@
    &&& (match (a.next, b.next) {
        (Ok(x), Ok(y)) => x.next_idx == y.next_idx && edge_data_eq(x.edge, y.edge),
        (Err(x), Err(y)) => x == y,
        _ => false,
    })
    &&& a.prev == b.prev
}

/// Copy one edge.
fn copy_edge(e: &Edge) -> (r: Edge)
    ensures
        edge_data_eq(*e, r),
{
    match e {
        Edge::Overlapped(n) => Edge::Overlapped(*n),
        Edge::Padded { padding } => Edge::Padded { padding: clone_bytes(padding) },
    }
}

/// Deep copy of a chain state, so that a perturbed candidate can be tried
/// while the best state is kept.
#[verifier::rlimit(100)]
pub fn duplicate(s: &State) -> (r: State)
    requires
        s.wf(),
    ensures
        r.wf(),
        r.particles@.len() == s.particles@.len(),
        forall|i: int|
            0 <= i < s.particles@.len() ==> particle_data_eq(
                #[trigger] r.particles@[i],
                s.particles@[i],
            ),
        r.score == s.score,
        r.bulk == s.bulk,
        r.starticle_idx == s.starticle_idx,
        r.unconnected_on_right@ == s.unconnected_on_right@,
        r.unconnected_on_left@ == s.unconnected_on_left@,
        r.chains@ == s.chains@,
{
    proof {
        reveal(State::links_ok);
        reveal(State::uor_ok);
        reveal(State::uol_ok);
    }
    let n = s.particles.len();
    let mut particles: Vec<Particle> = Vec::new();
    let mut i: usize = 0;
    while i < n
        invariant
            s.wf(),
            n == s.particles@.len(),
            i <= n,
            particles@.len() == i,
            forall|j: int|
                0 <= j < i ==> particle_data_eq(#[trigger] particles@[j], s.particles@[j]),
            sum_chars(particles@) == sum_chars(s.particles@.subrange(0, i as int)),
            sum_costs(particles@) == sum_costs(s.particles@.subrange(0, i as int)),
            sum_pads(particles@) == sum_pads(s.particles@.subrange(0, i as int)),
        decreases n - i,
    {
        let src = &s.particles[i];
        let next: Result<Next, NoNext> = match &src.next {
            Ok(nx) => Ok(Next { next_idx: nx.next_idx, edge: copy_edge(&nx.edge) }),
            Err(nn) => Err(NoNext { chain_start_idx: nn.chain_start_idx }),
        };
        let prev: Result<Prev, NoPrev> = match &src.prev {
            Ok(p) => Ok(Prev { prev_idx: p.prev_idx }),
            Err(np) => Err(NoPrev { chain_end_idx: np.chain_end_idx }),
        };
        let p = Particle { chars: clone_bytes(&src.chars), next, prev };
        proof {
            assert(particle_data_eq(p, s.particles@[i as int]));
            lemma_sums_push(particles@, p);
            assert(s.particles@.subrange(0, i + 1).drop_last() =~= s.particles@.subrange(
                0,
                i as int,
            ));
        }
        particles.push(p);
        i += 1;
    }
    let mut uor: Vec<usize> = Vec::new();
    let mut k: usize = 0;
    while k < s.unconnected_on_right.len()
        invariant
            k <= s.unconnected_on_right@.len(),
            uor@ =~= s.unconnected_on_right@.subrange(0, k as int),
        decreases s.unconnected_on_right@.len() - k,
    {
        uor.push(s.unconnected_on_right[k]);
        k += 1;
        proof {
            assert(uor@ =~= s.unconnected_on_right@.subrange(0, k as int));
        }
    }
    let mut uol: HashSet<usize> = HashSet::new();
    let mut m: usize = 0;
    while m < n
        invariant
            s.wf(),
            n == s.particles@.len(),
            m <= n,
            uol@.finite(),
            forall|x: usize| #![trigger uol@.contains(x)]
                uol@.contains(x) <==> (x < m && x != s.starticle_idx
                    && s.particles@[x as int].prev is Err),
        decreases n - m,
    {
        if m != s.starticle_idx {
            let prev_unset = match &s.particles[m].prev {
                Err(_) => true,
                Ok(_) => false,
            };
            if prev_unset {
                uol.insert(m);
            }
        }
        m += 1;
    }
    proof {
        reveal(State::uol_ok);
        assert(uol@ =~= s.unconnected_on_left@);
    }
    let r = State {
        particles,
        score: s.score,
        bulk: s.bulk,
        unconnected_on_right: uor,
        unconnected_on_left: uol,
        starticle_idx: s.starticle_idx,
        chains: Ghost(s.chains@),
    };
    proof {
        assert(r.unconnected_on_right@ =~= s.unconnected_on_right@);
        assert(r.particles@.len() == n);
        assert(s.particles@.subrange(0, n as int) =~= s.particles@);
        assert(r.score_ok());
        assert forall|i: int| #![trigger r.particles@[i]]
            0 <= i < n implies {
            let pi = r.particles@[i];
            &&& pi.chars.len() >= 1
            &&& pi.chars.len() <= isize::MAX as usize
            &&& (pi.next is Ok ==> {
                &&& pi.next->Ok_0.next_idx < n
                &&& r.particles@[pi.next->Ok_0.next_idx as int].prev == Ok::<Prev, NoPrev>(
                    Prev { prev_idx: i as usize },
                )
                &&& edge_ok(
                    pi.chars@,
                    pi.next->Ok_0.edge,
                    r.particles@[pi.next->Ok_0.next_idx as int].chars@,
                )
            })
            &&& (pi.next is Err ==> pi.next->Err_0.chain_start_idx < n)
            &&& (pi.prev is Ok ==> {
                &&& pi.prev->Ok_0.prev_idx < n
                &&& r.particles@[pi.prev->Ok_0.prev_idx as int].next is Ok
                &&& r.particles@[pi.prev->Ok_0.prev_idx as int].next->Ok_0.next_idx == i
            })
            &&& (pi.prev is Err ==> pi.prev->Err_0.chain_end_idx < n)
        } by {
            reveal(State::links_ok);
            assert(particle_data_eq(r.particles@[i], s.particles@[i]));
            if r.particles@[i].next is Ok {
                let j = r.particles@[i].next->Ok_0.next_idx;
                assert(s.particles@[i].next is Ok && s.particles@[i].next->Ok_0.next_idx == j);
                assert(particle_data_eq(r.particles@[j as int], s.particles@[j as int]));
                assert(edge_data_eq(
                    r.particles@[i].next->Ok_0.edge,
                    s.particles@[i].next->Ok_0.edge,
                ));
            }
            if r.particles@[i].prev is Ok {
                let j = r.particles@[i].prev->Ok_0.prev_idx;
                assert(s.particles@[i].prev is Ok && s.particles@[i].prev->Ok_0.prev_idx == j);
                assert(particle_data_eq(r.particles@[j as int], s.particles@[j as int]));
            }
        }
        assert(r.links_ok()) by {
            reveal(State::links_ok);
        }
        assert forall|i: int, j: int|
            0 <= i < j < n implies r.particles@[i].chars@ != r.particles@[j].chars@ by {
            assert(particle_data_eq(r.particles@[i], s.particles@[i]));
            assert(particle_data_eq(r.particles@[j], s.particles@[j]));
        }
        assert forall|k2: int| #![trigger r.unconnected_on_right@[k2]]
            0 <= k2 < r.unconnected_on_right@.len() implies {
            &&& r.unconnected_on_right@[k2] < n
            &&& r.particles@[r.unconnected_on_right@[k2] as int].next is Err
        } by {
            reveal(State::uor_ok);
            let x = r.unconnected_on_right@[k2];
            assert(s.unconnected_on_right@[k2] == x);
            assert(particle_data_eq(r.particles@[x as int], s.particles@[x as int]));
        }
        assert forall|i: int|
            0 <= i < n && r.particles@[i].next is Err implies r.unconnected_on_right@.contains(
            i as usize) by {
            reveal(State::uor_ok);
            assert(particle_data_eq(r.particles@[i], s.particles@[i]));
        }
        assert(r.uor_ok()) by {
            reveal(State::uor_ok);
        }
        assert forall|x: usize| #![trigger r.unconnected_on_left@.contains(x)]
            r.unconnected_on_left@.contains(x) implies {
            &&& x < n
            &&& x != r.starticle_idx
            &&& r.particles@[x as int].prev is Err
        } by {
            reveal(State::uol_ok);
            assert(particle_data_eq(r.particles@[x as int], s.particles@[x as int]));
        }
        assert forall|i: int|
            0 <= i < n && i != r.starticle_idx && r.particles@[i].prev is Err implies r
            .unconnected_on_left@.contains(i as usize) by {
            reveal(State::uol_ok);
            assert(particle_data_eq(r.particles@[i], s.particles@[i]));
        }
        assert(r.uol_ok()) by {
            reveal(State::uol_ok);
        }
        assert(particle_data_eq(
            r.particles@[r.starticle_idx as int],
            s.particles@[r.starticle_idx as int],
        ));
        assert(r.counts_ok() && r.starticle_ok());
        assert(chains_partition(r.particles@, r.chains@)) by {
            reveal(chains_partition);
            assert forall|k: int| 0 <= k < r.chains@.len() implies chain_shape(
                r.particles@,
                #[trigger] r.chains@[k],
            ) by {
                assert(chain_shape(s.particles@, s.chains@[k]));
                let c = s.chains@[k];
                assert forall|t: int|
                    0 <= t < c.len() - 1 implies (#[trigger] r.particles@[c[t]].next) is Ok
                    && r.particles@[c[t]].next->Ok_0.next_idx as int == c[t + 1] by {
                    assert(particle_data_eq(r.particles@[c[t]], s.particles@[c[t]]));
                }
                assert(particle_data_eq(
                    r.particles@[c[c.len() - 1]],
                    s.particles@[c[c.len() - 1]],
                ));
                assert(particle_data_eq(r.particles@[c[0]], s.particles@[c[0]]));
                assert(r.particles@[c[c.len() - 1]].next == Err::<Next, NoNext>(
                    NoNext { chain_start_idx: c[0] as usize },
                ));
                assert(r.particles@[c[0]].prev == Err::<Prev, NoPrev>(
                    NoPrev { chain_end_idx: c[c.len() - 1] as usize },
                ));
            }
        }
        assert(r.wf());
    }
    r
}

/// A candidate state is accepted only when its score strictly improves on
/// the best score seen.
pub fn accept_new_state(best_score: isize, candidate_score: isize) -> (r: bool)
    ensures
        r == (candidate_score < best_score),
{
    candidate_score < best_score
}

} // verus!
