//! The hash maps of this library are `rustc_hash::FxHashMap`s. Verus gives
//! std's `HashMap` a model (`m@`, a `Map`) but no behaviour under a hasher
//! other than std's own, so the operations used here are stated below, for
//! keys whose `Hash` and `Eq` agree with equality of values
//! (`obeys_key_model`, which holds of the integer types).
use rustc_hash::{FxBuildHasher, FxHashMap};
use std::hash::Hash;
use vstd::prelude::*;
use vstd::std_specs::hash::obeys_key_model;

verus! {

/// rustc_hash's hasher builder: a unit struct that builds a deterministic hasher.
#[verifier::external_type_specification]
#[verifier::external_body]
pub struct ExFxBuildHasher(FxBuildHasher);

/// A map keyed by slot id.
pub type SlotMap<V> = FxHashMap<usize, V>;

/// A map from values to the slots that hold them.
pub type ValueMap<T> = FxHashMap<T, usize>;

/// Relies on `HashMap::default` (through `FxHashMap`): a new map is empty.
#[verifier::external_body]
pub(crate) fn fx_new<K, V>() -> (r: FxHashMap<K, V>)
    ensures
        r@ =~= Map::empty(),
{
    FxHashMap::default()
}

/// Relies on `HashMap::insert`: the key is bound to the value afterwards and
/// nothing else changes.
#[verifier::external_body]
pub(crate) fn fx_insert<K: Eq + Hash, V>(m: &mut FxHashMap<K, V>, k: K, v: V)
    requires
        obeys_key_model::<K>(),
    ensures
        final(m)@ == old(m)@.insert(k, v),
{
    m.insert(k, v);
}

/// Relies on `HashMap::get`: the key's value, if the key is present.
#[verifier::external_body]
pub(crate) fn fx_get<'a, K: Eq + Hash, V>(m: &'a FxHashMap<K, V>, k: &K) -> (r: Option<&'a V>)
    requires
        obeys_key_model::<K>(),
    ensures
        match r {
            Some(v) => m@.contains_key(*k) && *v == m@[*k],
            None => !m@.contains_key(*k),
        },
{
    m.get(k)
}

/// Relies on `HashMap::get_mut`: a mutable borrow of the key's value; what
/// is written through it becomes the key's value.
#[verifier::external_body]
pub(crate) fn fx_get_mut<'a, K: Eq + Hash, V>(m: &'a mut FxHashMap<K, V>, k: &K) -> (r: Option<&'a mut V>)
    requires
        obeys_key_model::<K>(),
    ensures
        match r {
            Some(v) => old(m)@.contains_key(*k) && *v == old(m)@[*k] && final(m)@ == old(m)@.insert(
                *k,
                *final(v),
            ),
            None => !old(m)@.contains_key(*k) && final(m)@ == old(m)@,
        },
{
    m.get_mut(k)
}

/// Relies on `HashMap::remove`: the key's entry is taken out and its value returned.
#[verifier::external_body]
pub(crate) fn fx_remove<K: Eq + Hash, V>(m: &mut FxHashMap<K, V>, k: &K) -> (r: Option<V>)
    requires
        obeys_key_model::<K>(),
    ensures
        final(m)@ == old(m)@.remove(*k),
        match r {
            Some(v) => old(m)@.contains_key(*k) && v == old(m)@[*k],
            None => !old(m)@.contains_key(*k),
        },
{
    m.remove(k)
}

/// Relies on `HashMap::len`: the number of keys.
#[verifier::external_body]
pub(crate) fn fx_len<K, V>(m: &FxHashMap<K, V>) -> (r: usize)
    ensures
        r == m@.len(),
{
    m.len()
}

/// Relies on `HashMap::capacity`: a map can hold at least the entries it holds.
#[verifier::external_body]
pub(crate) fn fx_capacity<K, V>(m: &FxHashMap<K, V>) -> (r: usize)
    ensures
        r >= m@.len(),
{
    m.capacity()
}

/// Relies on `Vec::capacity`: a vector can hold at least its length.
#[verifier::external_body]
pub(crate) fn vec_capacity<T>(v: &Vec<T>) -> (r: usize)
    ensures
        r >= v@.len(),
{
    v.capacity()
}

} // verus!
