//! The tables of an endpoint: hash maps with the Fx hasher of the `fxhash`
//! crate, and the slab of the `slab` crate.
//!
//! What is said here of these collections is believed, not proved. Each
//! function below makes one call and says what that call does to the
//! collection's contents.

use fxhash::{FxHashMap, FxHasher};
use slab::Slab;
use std::hash::{BuildHasherDefault, Hash};
use vstd::prelude::*;
use vstd::std_specs::hash::obeys_key_model;
use crate::endpoint::AssociationMeta;

verus! {

/// The hasher of the `fxhash` crate.
#[verifier::external_type_specification]
#[verifier::external_body]
pub struct ExFxHasher(FxHasher);

/// The builder that makes a hasher by `Default`.
#[verifier::external_type_specification]
#[verifier::external_body]
#[verifier::reject_recursive_types(H)]
pub struct ExBuildHasherDefault<H>(BuildHasherDefault<H>);

/// The slab of the `slab` crate.
#[verifier::external_type_specification]
#[verifier::external_body]
#[verifier::reject_recursive_types(T)]
pub struct ExSlab<T>(Slab<T>);

/// The most entries that the library puts into a slab. The slab keeps its
/// entries in a vector, which panics when it is asked to hold more than
/// `isize::MAX` bytes; an entry here is smaller than 256 bytes, and a vector
/// doubles when it grows, so this many entries are safe wherever `usize` has
/// 32 bits or more.
pub const SLAB_LIMIT: usize = 0x3f_ffff;

/// `FxHashMap::default()`: a map without entries.
#[verifier::external_body]
pub(crate) fn fx_new<K, V>() -> (m: FxHashMap<K, V>)
    ensures
        (m@ == Map::<K, V>::empty()),
{
    FxHashMap::default()
}

/// `HashMap::insert` on a map with the Fx hasher: the key maps to the value
/// afterwards, and the value that the key mapped to before is returned.
///
/// The Fx hasher is deterministic, so a key that obeys the key model is
/// found again.
#[verifier::external_body]
pub(crate) fn fx_insert<K: Eq + Hash, V>(m: &mut FxHashMap<K, V>, k: K, v: V) -> (r: Option<V>)
    ensures
        obeys_key_model::<K>() ==> final(m)@ == old(m)@.insert(k, v),
        obeys_key_model::<K>() ==> r == (if old(m)@.contains_key(k) {
            Some(old(m)@[k])
        } else {
            None
        }),
{
    m.insert(k, v)
}

/// `HashMap::remove` on a map with the Fx hasher: the key maps to nothing
/// afterwards, and the value that it mapped to before is returned.
#[verifier::external_body]
pub(crate) fn fx_remove<K: Eq + Hash, V>(m: &mut FxHashMap<K, V>, k: &K) -> (r: Option<V>)
    ensures
        obeys_key_model::<K>() ==> final(m)@ == old(m)@.remove(*k),
        obeys_key_model::<K>() ==> r == (if old(m)@.contains_key(*k) {
            Some(old(m)@[*k])
        } else {
            None
        }),
{
    m.remove(k)
}

/// `HashMap::get` on a map with the Fx hasher, with the value copied: the
/// value that the key maps to, if it maps to one.
#[verifier::external_body]
pub(crate) fn fx_get<K: Eq + Hash, V: Copy>(m: &FxHashMap<K, V>, k: &K) -> (r: Option<V>)
    ensures
        obeys_key_model::<K>() ==> r == (if m@.contains_key(*k) {
            Some(m@[*k])
        } else {
            None
        }),
{
    m.get(k).copied()
}

/// `HashMap::len` on a map with the Fx hasher: the number of keys.
#[verifier::external_body]
pub(crate) fn fx_len<K, V>(m: &FxHashMap<K, V>) -> (n: usize)
    ensures
        n == m@.len(),
{
    m.len()
}

/// `HashMap::values` on a map with the Fx hasher, copied into a vector.
///
/// The order in which a hash map is walked is not fixed, so the claim is
/// only which values the vector holds: those that a key maps to.
#[verifier::external_body]
pub(crate) fn fx_values(m: &FxHashMap<u64, u32>) -> (v: Vec<u32>)
    ensures
        v@.to_set() == m@.values(),
{
    m.values().copied().collect()
}

/// The entries of a slab, by their keys.
pub uninterp spec fn slab_entries(s: Slab<AssociationMeta>) -> Map<usize, AssociationMeta>;

/// The key that the next entry put into a slab gets.
pub uninterp spec fn slab_vacant_key(s: Slab<AssociationMeta>) -> usize;

/// `Slab::new`: a slab without entries, whose first entry gets the key zero.
#[verifier::external_body]
pub(crate) fn slab_new() -> (s: Slab<AssociationMeta>)
    ensures
        (slab_entries(s) == Map::<usize, AssociationMeta>::empty()),
        slab_vacant_key(s) == 0,
{
    Slab::new()
}

/// `Slab::len`: the number of entries.
#[verifier::external_body]
pub(crate) fn slab_len(s: &Slab<AssociationMeta>) -> (n: usize)
    ensures
        n == slab_entries(*s).len(),
{
    s.len()
}

/// `Slab::contains`: whether the key has an entry.
#[verifier::external_body]
pub(crate) fn slab_contains(s: &Slab<AssociationMeta>, key: usize) -> (b: bool)
    ensures
        b == slab_entries(*s).contains_key(key),
{
    s.contains(key)
}

/// `Slab::insert`: the value becomes the entry of the vacant key, which is
/// returned; the other entries stay.
///
/// The slab panics when its vector is asked to hold more than `isize::MAX`
/// bytes, which a slab of fewer than `SLAB_LIMIT` entries never asks.
#[verifier::external_body]
pub(crate) fn slab_insert(s: &mut Slab<AssociationMeta>, val: AssociationMeta) -> (key: usize)
    requires
        slab_entries(*old(s)).len() < SLAB_LIMIT,
    ensures
        key == slab_vacant_key(*old(s)),
        !slab_entries(*old(s)).contains_key(key),
        slab_entries(*final(s)) == slab_entries(*old(s)).insert(key, val),
{
    s.insert(val)
}

/// `Slab::remove`: the entry of the key leaves the slab and is returned,
/// and the key is the next one to be given out. The key must have an entry,
/// else the slab panics.
#[verifier::external_body]
pub(crate) fn slab_remove(s: &mut Slab<AssociationMeta>, key: usize) -> (val: AssociationMeta)
    requires
        slab_entries(*old(s)).contains_key(key),
    ensures
        val == slab_entries(*old(s))[key],
        slab_entries(*final(s)) == slab_entries(*old(s)).remove(key),
        slab_vacant_key(*final(s)) == key,
{
    s.remove(key)
}

/// `Index::index` of a slab: the entry of the key. The key must have an
/// entry, else the slab panics.
#[verifier::external_body]
pub(crate) fn slab_get(s: &Slab<AssociationMeta>, key: usize) -> (val: &AssociationMeta)
    requires
        slab_entries(*s).contains_key(key),
    ensures
        *val == slab_entries(*s)[key],
{
    &s[key]
}

/// `IndexMut::index_mut` of a slab: the entry of the key, to be changed in
/// place. The other entries and the vacant key stay. The key must have an
/// entry, else the slab panics.
#[verifier::external_body]
pub(crate) fn slab_get_mut(s: &mut Slab<AssociationMeta>, key: usize) -> (val: &mut AssociationMeta)
    requires
        slab_entries(*old(s)).contains_key(key),
    ensures
        *val == slab_entries(*old(s))[key],
        slab_entries(*final(s)) == slab_entries(*old(s)).insert(key, *final(val)),
        slab_vacant_key(*final(s)) == slab_vacant_key(*old(s)),
{
    &mut s[key]
}

} // verus!
