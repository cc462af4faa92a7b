//! The station-index multimap of the `multimap` crate, seen through what it holds.
use vstd::prelude::*;

use multimap::MultiMap;

verus! {

/// `multimap::MultiMap`, opaque to proofs; what it holds is `multimap_contents`.
#[verifier::external_type_specification]
#[verifier::external_body]
#[verifier::reject_recursive_types(K)]
#[verifier::reject_recursive_types(V)]
#[verifier::reject_recursive_types(S)]
pub struct ExMultiMap<K, V, S>(MultiMap<K, V, S>);

/// What a multimap holds: for each key, its values in insertion order.
pub uninterp spec fn multimap_contents(m: MultiMap<u64, usize>) -> Map<u64, Seq<usize>>;

/// The contents after inserting `v` under `k`: appended to the key's values.
pub open spec fn inserted(c: Map<u64, Seq<usize>>, k: u64, v: usize) -> Map<u64, Seq<usize>> {
    if c.contains_key(k) {
        c.insert(k, c[k].push(v))
    } else {
        c.insert(k, seq![v])
    }
}

/// Relies on `MultiMap::new`: a new multimap holds nothing.
#[verifier::external_body]
pub(crate) fn multimap_new() -> (r: MultiMap<u64, usize>)
    ensures
        multimap_contents(r).dom() == Set::<u64>::empty(),
{
    MultiMap::new()
}

/// Relies on `MultiMap::insert`: the value is pushed onto the key's vector,
/// which is created when the key is new.
#[verifier::external_body]
pub(crate) fn multimap_insert(m: &mut MultiMap<u64, usize>, k: u64, v: usize)
    ensures
        multimap_contents(*final(m)) == inserted(multimap_contents(*old(m)), k, v),
{
    m.insert(k, v)
}

/// Relies on `MultiMap::get_vec`: the key's vector, if the key is present.
#[verifier::external_body]
pub(crate) fn multimap_get_vec(m: &MultiMap<u64, usize>, k: u64) -> (r: Option<&Vec<usize>>)
    ensures
        r is Some <==> multimap_contents(*m).contains_key(k),
        r matches Some(v) ==> v@ == multimap_contents(*m)[k],
{
    m.get_vec(&k)
}

} // verus!
