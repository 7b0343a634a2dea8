//! Hash maps on the Fx hasher.
//!
//! The maps of this crate are `fxhash::FxHashMap`s.  Their keys are plain
//! integers: a (value, component) pair is folded into one `u128`, a slot type
//! into its tag.  What a map holds is its view, a `Map` from keys to values.
//!
//! `FxHashMap` is std's `HashMap` with another hasher, and vstd says what
//! `HashMap` does only for hashers that it knows.  So the three calls that
//! the crate makes on its maps go through the three functions below, whose
//! contracts say of these maps what vstd says of maps on std's own hasher.
//! These contracts, and the existence of the two outside types, are taken on
//! trust; everything else in the crate is proved.

use crate::ir::Value;
use fxhash::FxHashMap;
use fxhash::FxHasher;
use std::hash::BuildHasherDefault;
use std::hash::Hash;
use vstd::prelude::*;
use vstd::std_specs::hash::obeys_key_model;

verus! {

/// `fxhash::FxHasher`, the state of one hash computation.  Nothing is said of
/// what it holds.
#[verifier::external_type_specification]
#[verifier::external_body]
pub struct ExFxHasher(FxHasher);

/// `std::hash::BuildHasherDefault`, which makes each new hasher by
/// `Default::default`.  Nothing is said of what it holds.
#[verifier::external_type_specification]
#[verifier::external_body]
#[verifier::reject_recursive_types(H)]
pub struct ExBuildHasherDefault<H>(BuildHasherDefault<H>);

/// `HashMap::insert` on a map that hashes with `FxHasher`.
///
/// Every `FxHasher` starts from the same state and folds the bytes it is given
/// into that state by rotate, xor and multiply, so equal keys always land on
/// equal hashes.  For a key type whose `Hash` and `Eq` agree with equality the
/// map therefore holds afterwards what it held before, with `k` bound to `v`.
#[verifier::external_body]
pub(crate) fn map_insert<K: Hash + Eq, V>(m: &mut FxHashMap<K, V>, k: K, v: V)
    ensures
        obeys_key_model::<K>() ==> final(m)@ == old(m)@.insert(k, v),
{
    m.insert(k, v);
}

/// `HashMap::get` on a map that hashes with `FxHasher`, with the value copied
/// out: the value bound to `k`, if there is one.
#[verifier::external_body]
pub(crate) fn map_get<K: Hash + Eq, V: Copy>(m: &FxHashMap<K, V>, k: K) -> (r: Option<V>)
    ensures
        obeys_key_model::<K>() ==> r == (if m@.contains_key(k) {
            Some(m@[k])
        } else {
            None::<V>
        }),
{
    m.get(&k).copied()
}

/// `HashMap::remove` on a map that hashes with `FxHasher`: the binding of `k`
/// leaves the map, and its value, if there was one, is handed out.
#[verifier::external_body]
pub(crate) fn map_remove<K: Hash + Eq, V>(m: &mut FxHashMap<K, V>, k: K) -> (r: Option<V>)
    ensures
        obeys_key_model::<K>() ==> final(m)@ == old(m)@.remove(k),
        obeys_key_model::<K>() ==> r == (if old(m)@.contains_key(k) {
            Some(old(m)@[k])
        } else {
            None::<V>
        }),
{
    m.remove(&k)
}

/// The map key of component `i` of value `v`: the value's index in the upper
/// bits, the component in the lower 64.
pub open spec fn key_code(v: Value, i: usize) -> u128 {
    (v.0 as u128 * 0x1_0000_0000_0000_0000 + i as u128) as u128
}

pub fn pack_key(v: Value, i: usize) -> (r: u128)
    ensures
        r == key_code(v, i),
{
    (v.0 as u128) * 0x1_0000_0000_0000_0000u128 + (i as u128)
}

/// Different pairs have different keys.
pub proof fn lemma_key_code_injective(v1: Value, i1: usize, v2: Value, i2: usize)
    ensures
        key_code(v1, i1) == key_code(v2, i2) <==> (v1 == v2 && i1 == i2),
{
    assert(i1 < 0x1_0000_0000_0000_0000 && i2 < 0x1_0000_0000_0000_0000);
    assert(v1.0 * 0x1_0000_0000_0000_0000 + i1 < 0x1_0000_0000_0000_0000_0000_0000_0000_0000);
    assert(v2.0 * 0x1_0000_0000_0000_0000 + i2 < 0x1_0000_0000_0000_0000_0000_0000_0000_0000);
}

} // verus!
