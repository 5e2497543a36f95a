//! The interning index: an insertion-ordered hash set of structural keys.
//!
//! The set itself comes from `indexmap`, hashed with `rustc_hash`. Its
//! behaviour is stated here and taken on trust; everything built on top of it
//! is proved against these statements.

use indexmap::IndexSet;
use rustc_hash::FxBuildHasher;
use vstd::prelude::*;

verus! {

/// `indexmap::IndexSet`, carried as an opaque value.
#[verifier::external_type_specification]
#[verifier::external_body]
#[verifier::reject_recursive_types(T)]
#[verifier::reject_recursive_types(S)]
pub struct ExIndexSet<T, S>(IndexSet<T, S>);

/// `rustc_hash::FxBuildHasher`, carried as an opaque value.
#[verifier::external_type_specification]
#[verifier::external_body]
pub struct ExFxBuildHasher(FxBuildHasher);

/// The keys held by the index, in insertion order.
pub uninterp spec fn index_keys(s: IndexSet<(u8, u64, u64, u64, u64), FxBuildHasher>) -> Seq<
    (u8, u64, u64, u64, u64),
>;

/// `IndexSet::with_hasher`: a fresh index holds no key.
#[verifier::external_body]
pub(crate) fn index_new() -> (s: IndexSet<(u8, u64, u64, u64, u64), FxBuildHasher>)
    ensures
        index_keys(s) == Seq::<(u8, u64, u64, u64, u64)>::empty(),
{
    IndexSet::with_hasher(FxBuildHasher)
}

/// `IndexSet::get_index_of`: the position of `key` if the index holds it,
/// `None` if it does not.
#[verifier::external_body]
pub(crate) fn index_find(
    s: &IndexSet<(u8, u64, u64, u64, u64), FxBuildHasher>,
    key: &(u8, u64, u64, u64, u64),
) -> (r: Option<usize>)
    ensures
        match r {
            Some(i) => i < index_keys(*s).len() && index_keys(*s)[i as int] == *key,
            None => forall|j: int| 0 <= j < index_keys(*s).len() ==> index_keys(*s)[j] != *key,
        },
{
    s.get_index_of(key)
}

/// `IndexSet::insert_full`: a key that the index already holds stays where it
/// is and its position is returned with `false`; a new key goes last and its
/// position is returned with `true`.
#[verifier::external_body]
pub(crate) fn index_insert(
    s: &mut IndexSet<(u8, u64, u64, u64, u64), FxBuildHasher>,
    key: (u8, u64, u64, u64, u64),
) -> (r: (usize, bool))
    ensures
        r.1 ==> {
            &&& forall|j: int| 0 <= j < index_keys(*old(s)).len() ==> index_keys(*old(s))[j] != key
            &&& index_keys(*final(s)) == index_keys(*old(s)).push(key)
            &&& r.0 == index_keys(*old(s)).len()
        },
        !r.1 ==> {
            &&& index_keys(*final(s)) == index_keys(*old(s))
            &&& r.0 < index_keys(*old(s)).len()
            &&& index_keys(*old(s))[r.0 as int] == key
        },
{
    s.insert_full(key)
}

/// `IndexSet::len`: the number of keys held.
#[verifier::external_body]
pub(crate) fn index_len(s: &IndexSet<(u8, u64, u64, u64, u64), FxBuildHasher>) -> (n: usize)
    ensures
        n == index_keys(*s).len(),
{
    s.len()
}

} // verus!
