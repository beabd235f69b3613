//! The insertion-ordered key set of a map, kept by `indexmap::IndexSet`.
//!
//! Verus does not look inside the set. What it holds is named by
//! [`key_seq`], and each function here states, over that name, what the
//! method of `IndexSet` it calls is documented to do. None of these
//! contracts is proved.

use indexmap::IndexSet;
use vstd::prelude::*;

verus! {

/// `indexmap::IndexSet`: carried as it is, with nothing known of what
/// is inside a value but what the functions below state.
#[verifier::external_type_specification]
#[verifier::external_body]
#[verifier::reject_recursive_types(T)]
#[verifier::reject_recursive_types(S)]
pub struct ExIndexSet<T, S>(indexmap::IndexSet<T, S>);

/// The keys that the set holds, in the order of their first insertion.
pub uninterp spec fn key_seq(s: IndexSet<Vec<u8>>) -> Seq<Seq<u8>>;

/// `IndexSet::new`: a set that holds nothing.
#[verifier::external_body]
pub(crate) fn keys_new() -> (s: IndexSet<Vec<u8>>)
    ensures
        key_seq(s) == Seq::<Seq<u8>>::empty(),
{
    IndexSet::new()
}

/// `IndexSet::clone`: a set that holds the same keys in the same order.
#[verifier::external_body]
pub(crate) fn keys_clone(s: &IndexSet<Vec<u8>>) -> (r: IndexSet<Vec<u8>>)
    ensures
        key_seq(r) == key_seq(*s),
{
    s.clone()
}

/// `IndexSet::insert_full`: a key that the set already holds stays where
/// it is and its index comes back with `false`; a new key goes to the
/// end and its index comes back with `true`.
#[verifier::external_body]
pub(crate) fn keys_insert_full(s: &mut IndexSet<Vec<u8>>, key: Vec<u8>) -> (r: (usize, bool))
    ensures
        key_seq(*old(s)).contains(key@) ==> key_seq(*final(s)) == key_seq(*old(s)) && !r.1 && r.0
            < key_seq(*old(s)).len() && key_seq(*old(s))[r.0 as int] == key@,
        !key_seq(*old(s)).contains(key@) ==> key_seq(*final(s)) == key_seq(*old(s)).push(key@)
            && r.1 && r.0 == key_seq(*old(s)).len(),
{
    s.insert_full(key)
}

/// `IndexSet::get_index`: the key at position `i`, or nothing when `i`
/// is not below the length.
#[verifier::external_body]
pub(crate) fn keys_get_index(s: &IndexSet<Vec<u8>>, i: usize) -> (r: Option<&Vec<u8>>)
    ensures
        i < key_seq(*s).len() ==> r is Some && r->0@ == key_seq(*s)[i as int],
        i >= key_seq(*s).len() ==> r is None,
{
    s.get_index(i)
}

/// `IndexSet::get_index_of`: the position of `key`, or nothing when the
/// set does not hold it.
#[verifier::external_body]
pub(crate) fn keys_get_index_of(s: &IndexSet<Vec<u8>>, key: &[u8]) -> (r: Option<usize>)
    ensures
        match r {
            Some(i) => i < key_seq(*s).len() && key_seq(*s)[i as int] == key@,
            None => !key_seq(*s).contains(key@),
        },
{
    s.get_index_of(key)
}

} // verus!
