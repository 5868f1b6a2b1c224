//! An insertion-ordered set of string keys, held in an `IndexMap`.
use indexmap::IndexMap;
use vstd::prelude::*;

verus! {

#[verifier::external_type_specification]
#[verifier::external_body]
#[verifier::reject_recursive_types(K)]
#[verifier::reject_recursive_types(V)]
#[verifier::reject_recursive_types(S)]
pub struct ExIndexMap<K, V, S>(IndexMap<K, V, S>);

/// The keys of `m`, in the order in which they were first inserted.
pub uninterp spec fn key_order(m: IndexMap<String, ()>) -> Seq<Seq<char>>;

/// Relies on `IndexMap::new`: a map without keys.
#[verifier::external_body]
pub(crate) fn new_key_index() -> (r: IndexMap<String, ()>)
    ensures
        key_order(r) == Seq::<Seq<char>>::empty(),
{
    IndexMap::new()
}

/// Relies on `IndexMap::get_index_of`: the position of `k` in insertion
/// order, or nothing where `k` is not a key.
#[verifier::external_body]
pub(crate) fn key_position(m: &IndexMap<String, ()>, k: &String) -> (r: Option<usize>)
    ensures
        match r {
            Some(i) => i < key_order(*m).len() && key_order(*m)[i as int] == k@,
            None => !key_order(*m).contains(k@),
        },
{
    m.get_index_of(k)
}

/// Relies on `IndexMap::insert_full`: a new key goes last; a key that is
/// already present keeps its place. Returns the key's position.
#[verifier::external_body]
pub(crate) fn add_key(m: &mut IndexMap<String, ()>, k: String) -> (r: usize)
    ensures
        key_order(*old(m)).contains(k@) ==> key_order(*final(m)) == key_order(*old(m)) && r
            < key_order(*old(m)).len() && key_order(*old(m))[r as int] == k@,
        !key_order(*old(m)).contains(k@) ==> key_order(*final(m)) == key_order(*old(m)).push(k@)
            && r == key_order(*old(m)).len(),
{
    m.insert_full(k, ()).0
}

} // verus!
