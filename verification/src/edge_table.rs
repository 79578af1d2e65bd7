//! The concurrent adjacency table (`dashmap::DashMap<i32, Vec<Edge>>`) that
//! graphs and caches keep their roads in, seen through the trusted items below.
use vstd::prelude::*;
use dashmap::DashMap;
use crate::models::graph::Edge;
use crate::models::paths::adjacency;

verus! {

#[verifier::external_type_specification]
#[verifier::external_body]
#[verifier::reject_recursive_types(K)]
#[verifier::reject_recursive_types(V)]
#[verifier::reject_recursive_types(S)]
pub struct ExDashMap<K, V, S>(DashMap<K, V, S>);

/// What an adjacency table holds: for each node id, its list of outgoing roads.
/// The contracts below change it only through `&mut`; a table that other
/// threads share and change through `&` (as `DashMap` allows) is outside what
/// they describe, and this library never shares its tables so.
pub uninterp spec fn edge_table(m: DashMap<i32, Vec<Edge>>) -> Map<i32, Seq<Edge>>;

/// Calls `DashMap::new`; the new table holds nothing.
#[verifier::external_body]
pub(crate) fn edge_table_new() -> (table: DashMap<i32, Vec<Edge>>)
    ensures
        edge_table(table) =~= Map::empty(),
{
    DashMap::new()
}

/// Calls `DashMap::get` and copies the list out of the guard it returns:
/// the list stored under `k`, or `None` where `k` has none.
#[verifier::external_body]
pub(crate) fn edge_table_get(m: &DashMap<i32, Vec<Edge>>, k: i32) -> (r: Option<Vec<Edge>>)
    ensures
        r is Some <==> edge_table(*m).contains_key(k),
        r matches Some(v) ==> v@ == edge_table(*m)[k],
{
    m.get(&k).map(|entry| entry.value().clone())
}

/// Calls `DashMap::entry(k).or_default()` and pushes `e` onto the list it
/// yields: `e` is appended to the list under `k`, which starts empty where
/// `k` had none.
#[verifier::external_body]
pub(crate) fn edge_table_push(table: &mut DashMap<i32, Vec<Edge>>, k: i32, e: Edge)
    ensures
        edge_table(*final(table)) == edge_table(*old(table)).insert(
            k,
            adjacency(edge_table(*old(table)), k).push(e),
        ),
{
    table.entry(k).or_default().push(e);
}

/// Calls `DashMap::insert`: the list under `k` becomes `v`.
#[verifier::external_body]
pub(crate) fn edge_table_insert(table: &mut DashMap<i32, Vec<Edge>>, k: i32, v: Vec<Edge>)
    ensures
        edge_table(*final(table)) == edge_table(*old(table)).insert(k, v@),
{
    table.insert(k, v);
}

/// Calls `DashMap::clone`: a separate table with the same lists.
#[verifier::external_body]
pub(crate) fn edge_table_clone(table: &DashMap<i32, Vec<Edge>>) -> (copy: DashMap<i32, Vec<Edge>>)
    ensures
        edge_table(copy) == edge_table(*table),
{
    table.clone()
}

/// Calls `DashMap::iter` and copies out each entry it yields: every key
/// the table holds, once each, with its list, in an order that is not stated.
#[verifier::external_body]
pub(crate) fn edge_table_entries(table: &DashMap<i32, Vec<Edge>>) -> (entries: Vec<(i32, Vec<Edge>)>)
    ensures
        forall|i: int|
            0 <= i < entries.len() ==> edge_table(*table).contains_key(#[trigger] entries@[i].0)
                && entries@[i].1@ == edge_table(*table)[entries@[i].0],
        forall|k: i32|
            #[trigger] edge_table(*table).contains_key(k) ==> exists|i: int|
                0 <= i < entries.len() && #[trigger] entries@[i].0 == k,
        forall|i: int, j: int|
            0 <= i < j < entries.len() ==> #[trigger] entries@[i].0 != #[trigger] entries@[j].0,
{
    table.iter().map(|entry| (*entry.key(), entry.value().clone())).collect()
}

} // verus!
