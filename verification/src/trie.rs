//! Byte-keyed radix tries from the `radix_trie` crate, used through
//! contracts stated over a mathematical map of their contents.

use vstd::prelude::*;
use radix_trie::TrieCommon;

verus! {

#[verifier::external_type_specification]
#[verifier::external_body]
#[verifier::reject_recursive_types(K)]
#[verifier::reject_recursive_types(V)]
pub struct ExTrie<K, V>(radix_trie::Trie<K, V>);

/// A radix trie mapping byte vectors to particle indices. The same shape
/// doubles as a set of words, with the value left unused.
pub type ByteTrie = radix_trie::Trie<Vec<u8>, usize>;

/// The key-value pairs currently held by a trie.
pub uninterp spec fn trie_contents(t: ByteTrie) -> Map<Seq<u8>, usize>;

/// The contents of a trie that holds nothing.
pub open spec fn empty_contents() -> Map<Seq<u8>, usize> {
    Map::empty()
}

/// Relies on radix_trie::Trie::new: the fresh trie holds nothing.
#[verifier::external_body]
pub(crate) fn trie_new() -> (r: ByteTrie)
    ensures
        trie_contents(r) == empty_contents(),
{
    radix_trie::Trie::new()
}

/// Relies on radix_trie::Trie (TrieCommon::len): the count of stored keys.
#[verifier::external_body]
pub(crate) fn trie_len(t: &ByteTrie) -> (r: usize)
    ensures
        r == trie_contents(*t).dom().len(),
{
    t.len()
}

/// Relies on radix_trie::Trie::insert: the pair is stored, replacing any
/// previous value at the same key.
#[verifier::external_body]
pub(crate) fn trie_insert(t: &mut ByteTrie, key: Vec<u8>, value: usize)
    ensures
        trie_contents(*final(t)) == trie_contents(*old(t)).insert(key@, value),
{
    t.insert(key, value);
}

/// Relies on radix_trie::Trie::remove: the key's entry is dropped;
/// removing an absent key changes nothing.
#[verifier::external_body]
pub(crate) fn trie_remove(t: &mut ByteTrie, key: &Vec<u8>)
    ensures
        trie_contents(*final(t)) == trie_contents(*old(t)).remove(key@),
{
    t.remove(key);
}

/// Relies on radix_trie::Trie::get: the stored value for the exact key.
#[verifier::external_body]
pub(crate) fn trie_get(t: &ByteTrie, key: &Vec<u8>) -> (r: Option<usize>)
    ensures
        match r {
            Some(v) => trie_contents(*t).contains_key(key@) && trie_contents(*t)[key@] == v,
            None => !trie_contents(*t).contains_key(key@),
        },
{
    t.get(key).copied()
}

/// Relies on radix_trie::Trie::get_raw_descendant: the subtrie returned
/// holds exactly the stored keys that begin with the given prefix, so its
/// first entry is such a key and emptiness means there is none.
#[verifier::external_body]
pub(crate) fn trie_first_descendant(t: &ByteTrie, prefix: &Vec<u8>) -> (r: Option<(Vec<u8>, usize)>)
    ensures
        match r {
            Some(kv) => trie_contents(*t).contains_key(kv.0@) && prefix@.is_prefix_of(kv.0@)
                && trie_contents(*t)[kv.0@] == kv.1,
            None => forall|k: Seq<u8>|
                trie_contents(*t).contains_key(k) ==> !prefix@.is_prefix_of(k),
        },
{
    match t.get_raw_descendant(prefix) {
        None => None,
        Some(st) => st.iter().next().map(|kv| (kv.0.clone(), *kv.1)),
    }
}

/// Relies on radix_trie::Trie::get_raw_descendant and the subtrie key
/// iterator: together they list, without repetition, exactly the stored
/// keys that begin with the given prefix.
#[verifier::external_body]
pub(crate) fn trie_descendant_keys(t: &ByteTrie, prefix: &Vec<u8>) -> (r: Vec<Vec<u8>>)
    ensures
        forall|i: int| #![trigger r@[i]]
            0 <= i < r@.len() ==> trie_contents(*t).contains_key(r@[i]@)
                && prefix@.is_prefix_of(r@[i]@),
        forall|k: Seq<u8>| trie_contents(*t).contains_key(k) && prefix@.is_prefix_of(k)
            ==> exists|i: int| 0 <= i < r@.len() && r@[i]@ == k,
        forall|i: int, j: int| 0 <= i < j < r@.len() ==> r@[i]@ != r@[j]@,
{
    let mut out = Vec::new();
    if let Some(st) = t.get_raw_descendant(prefix) {
        for k in st.keys() {
            out.push(k.clone());
        }
    }
    out
}

/// Build a trie holding exactly the given words as keys. Later copies of
/// a repeated word overwrite earlier ones, so the key set is the set of
/// words given.
pub fn trie_from_words(words: &Vec<Vec<u8>>) -> (t: ByteTrie)
    ensures
        trie_contents(t).dom().finite(),
        forall|k: Seq<u8>| #![trigger trie_contents(t).contains_key(k)]
            trie_contents(t).contains_key(k) <==> exists|i: int|
                0 <= i < words@.len() && #[trigger] words@[i]@ == k,
{
    let mut t = trie_new();
    let mut i: usize = 0;
    while i < words.len()
        invariant
            i <= words@.len(),
            trie_contents(t).dom().finite(),
            forall|k: Seq<u8>| #![trigger trie_contents(t).contains_key(k)]
                trie_contents(t).contains_key(k) <==> exists|j: int|
                    0 <= j < i && #[trigger] words@[j]@ == k,
        decreases words@.len() - i,
    {
        let mut key: Vec<u8> = Vec::new();
        let mut b: usize = 0;
        while b < words[i].len()
            invariant
                i < words@.len(),
                b <= words@[i as int]@.len(),
                key@ =~= words@[i as int]@.subrange(0, b as int),
            decreases words@[i as int]@.len() - b,
        {
            key.push(words[i][b]);
            b += 1;
        }
        proof {
            assert(key@ =~= words@[i as int]@);
        }
        trie_insert(&mut t, key, 0);
        i += 1;
    }
    t
}

} // verus!
