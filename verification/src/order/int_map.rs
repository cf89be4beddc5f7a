use vstd::prelude::*;
use std::hash::BuildHasherDefault;
use nohash_hasher::IntMap;
use nohash_hasher::NoHashHasher;
use crate::order::relation::Relation;

verus! {

/// `nohash_hasher::NoHashHasher`, the hasher of an `IntMap`. Nothing is said
/// of it: it only occurs in the type of the maps.
#[verifier::external_type_specification]
#[verifier::external_body]
#[verifier::reject_recursive_types(T)]
pub struct ExNoHashHasher<T>(NoHashHasher<T>);

/// `std::hash::BuildHasherDefault`, through which an `IntMap` makes its
/// hashers. Nothing is said of it: it only occurs in the type of the maps.
#[verifier::external_type_specification]
#[verifier::external_body]
#[verifier::reject_recursive_types(H)]
pub struct ExBuildHasherDefault<H>(BuildHasherDefault<H>);

/// The relations of one element to others, keyed by the position of the other.
pub type Rels = IntMap<usize, Relation>;

/// `IntMap::default()`: a map without entries.
#[verifier::external_body]
pub(crate) fn rels_new() -> (m: Rels)
    ensures
        m@ =~= Map::empty(),
{
    IntMap::default()
}

/// `HashMap::get` on an `IntMap`, with the value copied out: the value stored
/// under `key`, if there is one.
#[verifier::external_body]
pub(crate) fn rels_get(m: &Rels, key: usize) -> (r: Option<Relation>)
    ensures
        r == (if m@.contains_key(key) {
            Some(m@[key])
        } else {
            None
        }),
{
    m.get(&key).copied()
}

/// `HashMap::insert` on an `IntMap`: afterwards `key` maps to `value`, and every
/// other key is as before.
#[verifier::external_body]
pub(crate) fn rels_insert(m: &mut Rels, key: usize, value: Relation)
    ensures
        final(m)@ == old(m)@.insert(key, value),
{
    m.insert(key, value);
}

/// `HashMap::iter` on an `IntMap`, with each entry copied out: every entry of
/// the map once, in an order that the map chooses.
#[verifier::external_body]
pub(crate) fn rels_entries(m: &Rels) -> (r: Vec<(usize, Relation)>)
    ensures
        forall|i: int| 0 <= i < r@.len() ==> m@.contains_pair((#[trigger] r@[i]).0, r@[i].1),
        forall|k: usize| m@.contains_key(k) ==> exists|i: int| 0 <= i < r@.len() && (#[trigger] r@[i]).0 == k,
        forall|i: int, j: int| 0 <= i < j < r@.len() ==> (#[trigger] r@[i]).0 != (#[trigger] r@[j]).0,
{
    m.iter().map(|(key, value)| (*key, *value)).collect()
}

/// `HashMap::clone` on an `IntMap`: a map with the same entries.
#[verifier::external_body]
pub(crate) fn rels_clone(m: &Rels) -> (r: Rels)
    ensures
        r@ == m@,
{
    m.clone()
}

} // verus!
