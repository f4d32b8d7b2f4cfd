//! Trusted view of `indexmap::IndexMap`, the insertion-ordered map the
//! tracker keeps its per-element state in.
//!
//! The map is used with `u64` keys (element ids) and `usize` values (indices
//! into a side table).  Its contents are named by [`index_entries`]: the
//! key-value pairs in insertion order.  Each wrapper states, over that name,
//! what `indexmap`'s documentation and source promise for the call.

use vstd::prelude::*;

verus! {

/// `indexmap::IndexMap`: a hash map that preserves insertion order.
#[verifier::external_type_specification]
#[verifier::external_body]
#[verifier::reject_recursive_types(K)]
#[verifier::reject_recursive_types(V)]
#[verifier::reject_recursive_types(S)]
pub struct ExIndexMap<K, V, S>(indexmap::IndexMap<K, V, S>);

/// The key-value pairs of an insertion-ordered map, in their order.
pub uninterp spec fn index_entries(m: &indexmap::IndexMap<u64, usize>) -> Seq<(u64, usize)>;

/// No key appears twice.
pub open spec fn keys_distinct(s: Seq<(u64, usize)>) -> bool {
    forall|i: int, j: int| 0 <= i < j < s.len() ==> (#[trigger] s[i]).0 != (#[trigger] s[j]).0
}

/// Relies on `IndexMap::new`: the new map is empty.
#[verifier::external_body]
pub(crate) fn index_map_new() -> (r: indexmap::IndexMap<u64, usize>)
    ensures
        index_entries(&r) == Seq::<(u64, usize)>::empty(),
{
    indexmap::IndexMap::new()
}

/// Relies on `IndexMap::insert`: an existing key keeps its place and gets
/// the new value, with the old value returned; a new key is appended.
#[verifier::external_body]
pub(crate) fn index_map_insert(m: &mut indexmap::IndexMap<u64, usize>, k: u64, v: usize) -> (r: Option<
    usize,
>)
    ensures
        keys_distinct(index_entries(old(m))) ==> match r {
            Some(prev) => exists|i: int|
                0 <= i < index_entries(old(m)).len() && #[trigger] index_entries(old(m))[i] == (
                k,
                prev,
            ) && index_entries(final(m)) == index_entries(old(m)).update(i, (k, v)),
            None => (forall|i: int|
                0 <= i < index_entries(old(m)).len() ==> (#[trigger] index_entries(old(m))[i]).0
                    != k) && index_entries(final(m)) == index_entries(old(m)).push((k, v)),
        },
{
    m.insert(k, v)
}

/// Relies on `IndexMap::get`: the stored value for the key, if present.
#[verifier::external_body]
pub(crate) fn index_map_get(m: &indexmap::IndexMap<u64, usize>, k: u64) -> (r: Option<usize>)
    ensures
        keys_distinct(index_entries(m)) ==> match r {
            Some(v) => exists|i: int|
                0 <= i < index_entries(m).len() && #[trigger] index_entries(m)[i] == (k, v),
            None => forall|i: int|
                0 <= i < index_entries(m).len() ==> (#[trigger] index_entries(m)[i]).0 != k,
        },
{
    m.get(&k).copied()
}

/// Relies on `IndexMap::iter`: the pairs come out in insertion order.
#[verifier::external_body]
pub(crate) fn index_map_pairs(m: &indexmap::IndexMap<u64, usize>) -> (r: Vec<(u64, usize)>)
    ensures
        r@ == index_entries(m),
{
    m.iter().map(|(k, v)| (*k, *v)).collect()
}

} // verus!
