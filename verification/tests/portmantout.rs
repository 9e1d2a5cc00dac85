use carrycoat::contains_subsequence;
use carrycoat::generate::generate_particles;
use carrycoat::anneal::{accept_new_state, duplicate};
use carrycoat::normalize::normalize;
use carrycoat::search::{Edge, Particle, State, StateError, find_next};
use carrycoat::trie::trie_from_words;
use carrycoat::verify::{verify_contains_all, verify_cover};
use rand::SeedableRng;

fn rng(seed: u64) -> rand::rngs::StdRng {
    rand::rngs::StdRng::seed_from_u64(seed)
}

fn words(list: &[&[u8]]) -> Vec<Vec<u8>> {
    list.iter().map(|w| w.to_vec()).collect()
}

#[test]
fn test_subseq() {
    assert!(contains_subsequence(&[1, 3, 4], &[3, 4]));
    assert!(!contains_subsequence(&[1, 3, 4], &[3, 5]));
    assert!(!contains_subsequence(&[1, 3, 4], &[3, 4, 5]));
}

#[test]
fn subseq_empty_needle() {
    assert!(contains_subsequence(&[], &[]));
    assert!(contains_subsequence(&[9], &[]));
}

#[test]
fn normalize_drops_contained_words() {
    let out = normalize(&words(&[b"ab", b"abc", b"bc", b"xyz"]));
    assert_eq!(out, words(&[b"abc", b"xyz"]));
}

#[test]
fn normalize_merges_duplicates() {
    let out = normalize(&words(&[b"ab", b"ab"]));
    assert_eq!(out, words(&[b"ab"]));
}

#[test]
fn normalize_idempotent_on_sample() {
    let input = words(&[b"ab", b"abc", b"cd", b"bcd", b"q"]);
    let once = normalize(&input);
    let twice = normalize(&once);
    assert_eq!(once, twice);
}

#[test]
fn padded_edge_with_no_bytes_scores_zero() {
    let edge = Edge::Padded { padding: vec![] };
    assert_eq!(edge.score(), 0);
}

#[test]
fn overlap_edge_scores_negative_length() {
    let edge = Edge::Overlapped(4);
    assert_eq!(edge.score(), -4);
}

#[test]
fn three_byte_particle_probes_whole_overlap() {
    let particle = Particle::new(b"abc".to_vec(), 0);
    let empty = trie_from_words(&words(&[]));
    let heads = trie_from_words(&words(&[b"abcd"]));
    let found = find_next(&particle, &empty, &heads);
    match found {
        Some(nx) => match nx.edge {
            Edge::Overlapped(n) => assert_eq!(n, 3),
            Edge::Padded { .. } => panic!("expected an overlap"),
        },
        None => panic!("expected a candidate"),
    }
}

#[test]
fn short_particle_clips_overlap_window() {
    let particle = Particle::new(b"ab".to_vec(), 0);
    let empty = trie_from_words(&words(&[]));
    let heads = trie_from_words(&words(&[b"abx"]));
    let found = find_next(&particle, &empty, &heads);
    match found {
        Some(nx) => match nx.edge {
            Edge::Overlapped(n) => assert_eq!(n, 2),
            Edge::Padded { .. } => panic!("expected an overlap"),
        },
        None => panic!("expected a candidate"),
    }
}

#[test]
fn minimal_two_word_chain() {
    let mut state = State::from_words(words(&[b"portmanteauab", b"bc"])).unwrap();
    let joiners = trie_from_words(&words(&[b"abc", b"ab", b"bc"]));
    let mut r = rng(42);
    state.coalesce(&joiners, &mut r).unwrap();
    assert!(state.sanity_check());
    assert_eq!(state.unconnected_on_right.len(), 1);
    assert_eq!(state.unconnected_on_left.len(), 0);
    let rendered = state.render().unwrap();
    assert_eq!(rendered, b"portmanteauabc".to_vec());
    assert_eq!(state.score, 14);
}

#[test]
fn padded_edge_through_joiner() {
    let mut state = State::from_words(words(&[b"portmanteauxy", b"zw"])).unwrap();
    let joiners = trie_from_words(&words(&[b"yzw"]));
    let mut r = rng(3);
    state.coalesce(&joiners, &mut r).unwrap();
    let rendered = state.render().unwrap();
    assert_eq!(rendered, b"portmanteauxyzw".to_vec());
    assert_eq!(state.score, 15);
}

#[test]
fn cycle_avoidance_keeps_starticle_at_head() {
    let particles = words(&[b"portmanteauaa", b"ab", b"bc", b"ca"]);
    let mut state = State::from_words(particles.clone()).unwrap();
    let joiners = trie_from_words(&words(&[b"aab", b"abc", b"bca"]));
    for seed in 0..16u64 {
        let mut candidate = duplicate(&state);
        let mut r = rng(seed);
        candidate.coalesce(&joiners, &mut r).unwrap();
        assert!(candidate.sanity_check());
        assert_eq!(candidate.unconnected_on_left.len(), 0);
        let rendered = candidate.render().unwrap();
        assert!(rendered.starts_with(b"portmanteauaa"));
        assert!(verify_contains_all(&rendered, &particles).is_ok());
        assert_eq!(rendered.len() as isize, candidate.score);
    }
    // the original state is untouched by work on the duplicates
    assert_eq!(state.unconnected_on_right.len(), 4);
}

#[test]
fn break_chains_preserves_endpoint_counts() {
    let mut state = State::from_words(words(&[b"portmanteauab", b"bc", b"cd"])).unwrap();
    let joiners = trie_from_words(&words(&[b"abc", b"bcd", b"dbc"]));
    let mut r = rng(9);
    state.coalesce(&joiners, &mut r).unwrap();
    assert!(state.sanity_check());
    // cut every edge
    state.break_chains(&mut r, 10000).unwrap();
    assert!(state.sanity_check());
    assert_eq!(state.unconnected_on_right.len(), 3);
    assert_eq!(state.unconnected_on_left.len(), 2);
    // and rebuild
    state.coalesce(&joiners, &mut r).unwrap();
    assert!(state.sanity_check());
    assert_eq!(state.unconnected_on_right.len(), 1);
}

#[test]
fn resume_round_trip() {
    let particle_words = words(&[b"portmanteauab", b"bc"]);
    let mut state = State::from_words(particle_words.clone()).unwrap();
    let joiners = trie_from_words(&words(&[b"abc"]));
    let mut r = rng(5);
    state.coalesce(&joiners, &mut r).unwrap();
    let rendered = state.render().unwrap();

    let mut revived = State::from_words(particle_words).unwrap();
    revived.resume(&rendered).unwrap();
    assert_eq!(revived.score, state.score);
    assert!(revived.sanity_check());
    assert_eq!(revived.render().unwrap(), rendered);
}

#[test]
fn resume_rejects_missing_particle() {
    let mut state = State::from_words(words(&[b"portmanteauab", b"qq"])).unwrap();
    let err = state.resume(&b"portmanteauabzz".to_vec());
    assert_eq!(err, Err(StateError::ParticleMissing));
}

#[test]
fn from_words_needs_a_starticle() {
    assert!(matches!(State::from_words(words(&[b"ab", b"bc"])), Err(StateError::NoStarticle)));
    assert!(matches!(
        State::from_words(words(&[b"portmanteauab", b""])),
        Err(StateError::EmptyWord)
    ));
}

#[test]
fn cover_check_passes_on_overlapping_words() {
    let dict = trie_from_words(&words(&[b"ab", b"bcd"]));
    assert_eq!(verify_cover(&b"abcd".to_vec(), &dict), Ok(()));
}

#[test]
fn cover_check_fails_at_first_gap() {
    let dict = trie_from_words(&words(&[b"ab", b"cd"]));
    assert_eq!(verify_cover(&b"abcd".to_vec(), &dict), Err(2));
}

#[test]
fn cover_check_blocked_index_is_minimal() {
    let dict = trie_from_words(&words(&[b"abc", b"cde", b"ex"]));
    assert_eq!(verify_cover(&b"abcdex".to_vec(), &dict), Ok(()));
    // coverage stops after abc: no word starting at or before index 3
    // reaches past it
    let dict2 = trie_from_words(&words(&[b"abc", b"dex"]));
    assert_eq!(verify_cover(&b"abcdex".to_vec(), &dict2), Err(3));
}

#[test]
fn contains_all_with_sliding_words() {
    let text = b"abracadabra".to_vec();
    assert!(verify_contains_all(&text, &words(&[b"abra", b"cad", b"dab"])).is_ok());
    assert_eq!(
        verify_contains_all(&text, &words(&[b"abra", b"cad", b"dab", b"xyz"])),
        Err(b"xyz".to_vec())
    );
}

#[test]
fn particle_generation_merges_overlaps() {
    let input = words(&[b"abcd", b"cdef", b"xyz"]);
    let out = generate_particles(&input).unwrap();
    assert!(out.len() <= input.len());
    for w in &input {
        assert!(out.iter().any(|p| contains_subsequence(p, w)));
    }
}

#[test]
fn acceptance_is_strict_improvement() {
    assert!(accept_new_state(10, 9));
    assert!(!accept_new_state(10, 10));
    assert!(!accept_new_state(10, 11));
}
