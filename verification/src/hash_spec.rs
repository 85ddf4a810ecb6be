//! The hash collections keyed by node ids: `nohash_hasher`'s `IntMap` and
//! `IntSet`, and `rapidhash`'s `RapidHashSet`. They are std's `HashMap` and
//! `HashSet` with other hashers; their contents are std's views of them.
use vstd::prelude::*;
use nohash_hasher::{BuildNoHashHasher, IntMap, IntSet};
use rapidhash::RapidHashSet;

verus! {

#[verifier::external_type_specification]
#[verifier::external_body]
#[verifier::reject_recursive_types(H)]
pub struct ExBuildHasherDefault<H>(std::hash::BuildHasherDefault<H>);

#[verifier::external_type_specification]
#[verifier::external_body]
#[verifier::reject_recursive_types(T)]
pub struct ExNoHashHasher<T>(nohash_hasher::NoHashHasher<T>);

#[verifier::external_type_specification]
#[verifier::external_body]
pub struct ExRapidRandomState<
    const AVALANCHE: bool,
    const SPONGE: bool,
    const COMPACT: bool,
    const PROTECTED: bool,
>(rapidhash::inner::RandomState<AVALANCHE, SPONGE, COMPACT, PROTECTED>);

/// `HashMap::len` on an adjacency map: the number of keys.
#[verifier::external_body]
pub(crate) fn adjacency_len(m: &IntMap<usize, IntSet<usize>>) -> (r: usize)
    ensures
        r == m@.len(),
{
    m.len()
}

/// `HashMap::get` on an adjacency map: the set stored under `k`, if any.
#[verifier::external_body]
pub(crate) fn adjacency_get(m: &IntMap<usize, IntSet<usize>>, k: usize) -> (r: Option<&IntSet<usize>>)
    ensures
        r is Some <==> m@.contains_key(k),
        r matches Some(s) ==> *s == m@[k],
{
    m.get(&k)
}

/// `HashSet::iter` over a set of node ids, collected: every element once,
/// in the order the set is walked.
#[verifier::external_body]
pub(crate) fn intset_elements(s: &IntSet<usize>) -> (r: Vec<usize>)
    ensures
        r@.no_duplicates(),
        forall|x: usize| #[trigger] r@.contains(x) <==> s@.contains(x),
{
    s.iter().copied().collect()
}

/// `HashSet::iter` over a set of node pairs, collected: every pair once, in
/// the order the set is walked (which its randomly seeded hasher decides).
#[verifier::external_body]
pub(crate) fn pair_elements(s: &RapidHashSet<(usize, usize)>) -> (r: Vec<(usize, usize)>)
    ensures
        r@.no_duplicates(),
        forall|x: (usize, usize)| #[trigger] r@.contains(x) <==> s@.contains(x),
{
    s.iter().copied().collect()
}

/// `HashMap::default` for a map between node ids: an empty map.
#[verifier::external_body]
pub(crate) fn id_map_new() -> (r: IntMap<usize, usize>)
    ensures
        r@.dom() == Set::<usize>::empty(),
{
    IntMap::default()
}

/// `HashMap::get` on a map between node ids: the value under `k`, if any.
#[verifier::external_body]
pub(crate) fn id_map_get(m: &IntMap<usize, usize>, k: usize) -> (r: Option<usize>)
    ensures
        r is Some <==> m@.contains_key(k),
        r matches Some(v) ==> v == m@[k],
{
    m.get(&k).copied()
}

/// `HashMap::insert` on a map between node ids: sets the value under `k`.
#[verifier::external_body]
pub(crate) fn id_map_insert(m: &mut IntMap<usize, usize>, k: usize, v: usize)
    ensures
        final(m)@ == old(m)@.insert(k, v),
{
    m.insert(k, v);
}

/// `HashSet::from_iter` over one node id: the set holding just that id.
#[verifier::external_body]
pub(crate) fn intset_of_one(v: usize) -> (r: IntSet<usize>)
    ensures
        r@ == Set::<usize>::empty().insert(v),
{
    IntSet::from_iter([v])
}

/// `HashSet::with_capacity_and_hasher` for node ids: an empty set.
#[verifier::external_body]
pub(crate) fn intset_with_capacity(n: usize) -> (r: IntSet<usize>)
    ensures
        r@ == Set::<usize>::empty(),
{
    IntSet::with_capacity_and_hasher(n, BuildNoHashHasher::default())
}

/// `HashSet::insert` on a set of node ids: adds `x`, and returns whether it
/// was absent.
#[verifier::external_body]
pub(crate) fn intset_insert(s: &mut IntSet<usize>, x: usize) -> (r: bool)
    ensures
        final(s)@ == old(s)@.insert(x),
        r == !old(s)@.contains(x),
{
    s.insert(x)
}

/// `HashSet::into_iter` over a set of node ids, collected: every element
/// once, in the order the set is walked.
#[verifier::external_body]
pub(crate) fn intset_into_vec(s: IntSet<usize>) -> (r: Vec<usize>)
    ensures
        r@.no_duplicates(),
        forall|x: usize| #[trigger] r@.contains(x) <==> s@.contains(x),
{
    s.into_iter().collect()
}

} // verus!
