//! A map from fingerprint bytes to a position, kept in an `indexmap::IndexMap`.
use vstd::prelude::*;

verus! {

#[verifier::external_type_specification]
#[verifier::external_body]
#[verifier::reject_recursive_types(K)]
#[verifier::reject_recursive_types(V)]
#[verifier::reject_recursive_types(S)]
pub struct ExIndexMap<K, V, S>(indexmap::IndexMap<K, V, S>);

/// Positions of entries in a vector, by the bytes of their key.
pub type KeyIndex = indexmap::IndexMap<[u8; 32], usize>;

/// The key-to-position pairs that a [`KeyIndex`] holds.
pub uninterp spec fn index_of(m: KeyIndex) -> Map<Seq<u8>, usize>;

/// Relies on `IndexMap::new`: a map with no entries.
#[verifier::external_body]
pub(crate) fn index_new() -> (r: KeyIndex)
    ensures
        index_of(r).is_empty(),
{
    indexmap::IndexMap::new()
}

/// Relies on `IndexMap::get`: the value stored under `k`, if any.
#[verifier::external_body]
pub(crate) fn index_get(m: &KeyIndex, k: &[u8; 32]) -> (r: Option<usize>)
    ensures
        r == (if index_of(*m).contains_key(k@) {
            Some(index_of(*m)[k@])
        } else {
            None::<usize>
        }),
{
    m.get(k).copied()
}

/// Relies on `IndexMap::insert`: afterwards `k` maps to `v`, other keys are unchanged.
#[verifier::external_body]
pub(crate) fn index_insert(m: &mut KeyIndex, k: [u8; 32], v: usize)
    ensures
        index_of(*final(m)) == index_of(*old(m)).insert(k@, v),
{
    m.insert(k, v);
}

/// Relies on `IndexMap::swap_remove`: afterwards `k` has no entry, other keys keep theirs.
#[verifier::external_body]
pub(crate) fn index_remove(m: &mut KeyIndex, k: &[u8; 32])
    ensures
        index_of(*final(m)) == index_of(*old(m)).remove(k@),
{
    m.swap_remove(k);
}

} // verus!
