//! The hash collections of `rustc_hash`, as far as this crate uses them.
//!
//! `FxHashSet` and `FxHashMap` are the standard collections with `FxHasher`
//! as their hasher. The functions below are the only places where a lookup
//! or an insertion goes through that hasher; their contracts are not proved.

use core::hash::BuildHasherDefault;
use rustc_hash::FxHashMap;
use rustc_hash::FxHashSet;
use rustc_hash::FxHasher;
use vstd::prelude::*;

verus! {

/// `rustc_hash::FxHasher`, the hasher of both collections. Nothing is
/// said of it but that it is a type.
#[verifier::external_type_specification]
#[verifier::external_body]
pub struct ExFxHasher(FxHasher);

/// `core::hash::BuildHasherDefault`, which makes a hasher of its kind by
/// `Default`. Nothing is said of it but that it is a type.
#[verifier::external_type_specification]
#[verifier::external_body]
#[verifier::reject_recursive_types(H)]
pub struct ExBuildHasherDefault<H>(BuildHasherDefault<H>);

/// `HashSet::contains` on an `FxHashSet<usize>`.
///
/// `FxHasher` starts from a fixed state and hashes a `usize` by rotating,
/// xor-ing and multiplying with a constant, so equal keys always hash alike
/// and the set answers by key equality alone: the result says whether `key`
/// is an element.
#[verifier::external_body]
pub(crate) fn fx_set_contains(set: &FxHashSet<usize>, key: usize) -> (found: bool)
    ensures
        found == set@.contains(key),
{
    set.contains(&key)
}

/// `HashSet::insert` on an `FxHashSet<usize>`.
///
/// Afterwards the set holds what it held before and `key`.
#[verifier::external_body]
pub(crate) fn fx_set_insert(set: &mut FxHashSet<usize>, key: usize)
    ensures
        final(set)@ == old(set)@.insert(key),
{
    set.insert(key);
}

/// `HashMap::get` on an `FxHashMap<usize, usize>`, with the value copied out.
///
/// The result is the value stored under `key`, or `None` where the map has
/// no such key.
#[verifier::external_body]
pub(crate) fn fx_map_get(map: &FxHashMap<usize, usize>, key: usize) -> (value: Option<usize>)
    ensures
        value == (if map@.contains_key(key) {
            Some(map@[key])
        } else {
            None
        }),
{
    map.get(&key).copied()
}

/// `HashMap::insert` on an `FxHashMap<usize, usize>`.
///
/// Afterwards `key` maps to `value` and every other key is as before.
#[verifier::external_body]
pub(crate) fn fx_map_insert(map: &mut FxHashMap<usize, usize>, key: usize, value: usize)
    ensures
        final(map)@ == old(map)@.insert(key, value),
{
    map.insert(key, value);
}

} // verus!
