//! The hash sets and maps of the passes: std's `HashSet`/`HashMap` with
//! `rustc_hash::FxBuildHasher` (`FxHashSet`/`FxHashMap`), keyed by integers.
//!
//! `FxBuildHasher` builds `FxHasher`s with a fixed seed, so hashing a key is
//! deterministic and two `u32` keys are the same key exactly when they are
//! equal; the contracts below state the set and map behaviour under that
//! hasher. vstd specifies these methods only for hashers it knows.

use vstd::prelude::*;
use rustc_hash::{FxHashMap, FxHashSet};

verus! {

/// The hasher type of `rustc_hash`'s collections.
#[verifier::external_type_specification]
#[verifier::external_body]
pub struct ExFxBuildHasher(rustc_hash::FxBuildHasher);

/// `HashSet::insert` on an `FxHashSet<u32>`: adds `k`, and returns whether
/// it was absent before.
#[verifier::external_body]
pub(crate) fn fx_set_insert(s: &mut FxHashSet<u32>, k: u32) -> (r: bool)
    ensures
        final(s)@ == old(s)@.insert(k),
        r == !old(s)@.contains(k),
{
    s.insert(k)
}

/// `HashSet::contains` on an `FxHashSet<u32>`: whether `k` is in the set.
#[verifier::external_body]
pub(crate) fn fx_set_contains(s: &FxHashSet<u32>, k: u32) -> (r: bool)
    ensures
        r == s@.contains(k),
{
    s.contains(&k)
}

/// `HashMap::insert` on an `FxHashMap<u32, V>`: maps `k` to `v`, replacing
/// any earlier value.
#[verifier::external_body]
pub(crate) fn fx_map_insert<V>(m: &mut FxHashMap<u32, V>, k: u32, v: V)
    ensures
        final(m)@ == old(m)@.insert(k, v),
{
    m.insert(k, v);
}

/// `HashMap::get` on an `FxHashMap<u32, V>`: the value mapped to `k`, if any.
#[verifier::external_body]
pub(crate) fn fx_map_get<V>(m: &FxHashMap<u32, V>, k: u32) -> (r: Option<&V>)
    ensures
        r == (if m@.contains_key(k) {
            Some(&m@[k])
        } else {
            None
        }),
{
    m.get(&k)
}

/// `HashMap::remove` on an `FxHashMap<u32, V>`: takes `k` out of the map and
/// returns the value it was mapped to, if any.
#[verifier::external_body]
pub(crate) fn fx_map_remove<V>(m: &mut FxHashMap<u32, V>, k: u32) -> (r: Option<V>)
    ensures
        final(m)@ == old(m)@.remove(k),
        r == (if old(m)@.contains_key(k) {
            Some(old(m)@[k])
        } else {
            None
        }),
{
    m.remove(&k)
}

/// The keys of an `FxHashMap<u32, V>`, each once, in the map's own order
/// (`HashMap::keys`).
#[verifier::external_body]
pub(crate) fn fx_map_keys<V>(m: &FxHashMap<u32, V>) -> (r: Vec<u32>)
    ensures
        r@.to_set() == m@.dom(),
        r@.no_duplicates(),
{
    m.keys().copied().collect()
}

/// The elements of an `FxHashSet<u32>`, each once, in the set's own order
/// (`HashSet::iter`).
#[verifier::external_body]
pub(crate) fn fx_set_elements(s: &FxHashSet<u32>) -> (r: Vec<u32>)
    ensures
        r@.to_set() == s@,
        r@.no_duplicates(),
{
    s.iter().copied().collect()
}

} // verus!
