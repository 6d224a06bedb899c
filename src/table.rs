//! The per-worker table from key bytes to accumulators, held in an
//! `ahash::AHashMap`.
use vstd::prelude::*;
use crate::stats::TempStats;

verus! {

#[verifier::external_type_specification]
#[verifier::external_body]
#[verifier::reject_recursive_types(K)]
#[verifier::reject_recursive_types(V)]
#[verifier::reject_recursive_types(S)]
pub struct ExAHashMap<K, V, S>(ahash::AHashMap<K, V, S>);

#[verifier::external_type_specification]
#[verifier::external_body]
pub struct ExRandomState(ahash::RandomState);

/// The table the workers and the final merge fill.
pub type StatsTable = ahash::AHashMap<Vec<u8>, TempStats>;

/// What a table holds: each key's bytes mapped to its accumulator.
pub uninterp spec fn table_contents(t: StatsTable) -> Map<Seq<u8>, TempStats>;

/// Relies on `AHashMap::default`: a new table is empty.
#[verifier::external_body]
pub(crate) fn table_new() -> (r: StatsTable)
    ensures
        table_contents(r) =~= Map::empty(),
{
    ahash::AHashMap::default()
}

/// Relies on `AHashMap::get`: the accumulator stored under the key, if any.
/// `Vec<u8>` borrows as `[u8]` with the same equality and hash.
#[verifier::external_body]
pub(crate) fn table_get(t: &StatsTable, key: &[u8]) -> (r: Option<TempStats>)
    ensures
        table_contents(*t).contains_key(key@) ==> r == Some(table_contents(*t)[key@]),
        !table_contents(*t).contains_key(key@) ==> r is None,
{
    t.get(key).copied()
}

/// Relies on `AHashMap::insert`: the key now maps to the value, every other
/// key is unchanged.
#[verifier::external_body]
pub(crate) fn table_insert(t: &mut StatsTable, key: Vec<u8>, value: TempStats)
    ensures
        table_contents(*final(t)) == table_contents(*old(t)).insert(key@, value),
{
    t.insert(key, value);
}

/// Relies on `AHashMap::into_iter`: every entry once, in an unspecified order.
#[verifier::external_body]
pub(crate) fn table_into_entries(t: StatsTable) -> (r: Vec<(Vec<u8>, TempStats)>)
    ensures
        forall|i: int, j: int| 0 <= i < j < r@.len() ==> r@[i].0@ != r@[j].0@,
        forall|i: int|
            0 <= i < r@.len() ==> table_contents(t).contains_key(#[trigger] r@[i].0@)
                && table_contents(t)[r@[i].0@] == r@[i].1,
        forall|k: Seq<u8>| #[trigger] table_contents(t).contains_key(k) ==> exists|i: int|
            0 <= i < r@.len() && r@[i].0@ == k,
{
    t.into_iter().collect()
}

} // verus!
