//! The shared tables of a traversal, kept in `dashmap::DashMap`.
//!
//! A `DashMap` changes behind a shared reference. The functions here take it
//! by `&mut` wherever they change it, so that verified code sees each change;
//! whoever shares a traversal between threads puts it behind a lock.
//!
//! A key that is a path is the path as it is spelled: two spellings of one
//! path are two keys.

use vstd::prelude::*;
use dashmap::DashMap;
use rustc_hash::FxBuildHasher;

verus! {

/// `dashmap::DashMap`, a hash map that can be shared between threads. Verus
/// sees nothing inside it.
#[verifier::external_type_specification]
#[verifier::external_body]
#[verifier::reject_recursive_types(K)]
#[verifier::reject_recursive_types(V)]
#[verifier::reject_recursive_types(S)]
pub struct ExDashMap<K, V, S>(DashMap<K, V, S>);

/// `rustc_hash::FxBuildHasher`, the hasher that the tables are built with.
#[verifier::external_type_specification]
#[verifier::external_body]
pub struct ExFxBuildHasher(FxBuildHasher);

/// What a table of directory identifiers holds.
pub uninterp spec fn id_entries(m: DashMap<String, u32, FxBuildHasher>) -> Map<Seq<char>, u32>;

/// What an index of files holds: for each file the place of its entry.
pub uninterp spec fn index_entries(m: DashMap<String, usize, FxBuildHasher>) -> Map<Seq<char>, usize>;

/// What a table of probed paths holds: for each path whether it exists.
pub uninterp spec fn probe_entries(m: DashMap<String, bool, FxBuildHasher>) -> Map<Seq<char>, bool>;

/// What a table of resolutions holds: for a token and the identifier of a
/// directory, the path that the token resolved to, if any.
pub uninterp spec fn resolution_entries(
    m: DashMap<(String, u32), Option<String>, FxBuildHasher>,
) -> Map<(Seq<char>, u32), Option<Seq<char>>>;

/// What a table of claims holds: for each header the file of the translation
/// unit that claimed it.
pub uninterp spec fn claim_entries(m: DashMap<String, String, FxBuildHasher>) -> Map<
    Seq<char>,
    Seq<char>,
>;

/// Calls `DashMap::with_hasher`. Trusted: the new table is empty.
#[verifier::external_body]
pub(crate) fn ids_new() -> (m: DashMap<String, u32, FxBuildHasher>)
    ensures
        (id_entries(m) == Map::<Seq<char>, u32>::empty()),
{
    DashMap::with_hasher(FxBuildHasher)
}

/// Calls `DashMap::get`. Trusted: the result is the value under `key`, if
/// the table holds one.
#[verifier::external_body]
pub(crate) fn ids_get(m: &DashMap<String, u32, FxBuildHasher>, key: &str) -> (r: Option<u32>)
    ensures
        r == id_entries(*m).get(key@),
{
    m.get(key).map(|e| *e.value())
}

/// Calls `DashMap::insert`. Trusted: afterwards `key` maps to `value`, and
/// every other key is as before.
#[verifier::external_body]
pub(crate) fn ids_insert(m: &mut DashMap<String, u32, FxBuildHasher>, key: String, value: u32)
    ensures
        id_entries(*final(m)) == id_entries(*old(m)).insert(key@, value),
{
    m.insert(key, value);
}

/// Calls `DashMap::with_hasher`. Trusted: the new table is empty.
#[verifier::external_body]
pub(crate) fn index_new() -> (m: DashMap<String, usize, FxBuildHasher>)
    ensures
        (index_entries(m) == Map::<Seq<char>, usize>::empty()),
{
    DashMap::with_hasher(FxBuildHasher)
}

/// Calls `DashMap::get`. Trusted: the result is the value under `key`, if
/// the table holds one.
#[verifier::external_body]
pub(crate) fn index_get(m: &DashMap<String, usize, FxBuildHasher>, key: &str) -> (r: Option<usize>)
    ensures
        r == index_entries(*m).get(key@),
{
    m.get(key).map(|e| *e.value())
}

/// Calls `DashMap::insert`. Trusted: afterwards `key` maps to `value`, and
/// every other key is as before.
#[verifier::external_body]
pub(crate) fn index_insert(m: &mut DashMap<String, usize, FxBuildHasher>, key: String, value: usize)
    ensures
        index_entries(*final(m)) == index_entries(*old(m)).insert(key@, value),
{
    m.insert(key, value);
}

/// Calls `DashMap::with_hasher`. Trusted: the new table is empty.
#[verifier::external_body]
pub(crate) fn probes_new() -> (m: DashMap<String, bool, FxBuildHasher>)
    ensures
        (probe_entries(m) == Map::<Seq<char>, bool>::empty()),
{
    DashMap::with_hasher(FxBuildHasher)
}

/// Calls `DashMap::get`. Trusted: the result is the value under `key`, if
/// the table holds one.
#[verifier::external_body]
pub(crate) fn probes_get(m: &DashMap<String, bool, FxBuildHasher>, key: &str) -> (r: Option<bool>)
    ensures
        r == probe_entries(*m).get(key@),
{
    m.get(key).map(|e| *e.value())
}

/// Calls `DashMap::insert`. Trusted: afterwards `key` maps to `value`, and
/// every other key is as before.
#[verifier::external_body]
pub(crate) fn probes_insert(m: &mut DashMap<String, bool, FxBuildHasher>, key: String, value: bool)
    ensures
        probe_entries(*final(m)) == probe_entries(*old(m)).insert(key@, value),
{
    m.insert(key, value);
}

/// Calls `DashMap::with_hasher`. Trusted: the new table is empty.
#[verifier::external_body]
pub(crate) fn resolutions_new() -> (m: DashMap<(String, u32), Option<String>, FxBuildHasher>)
    ensures
        (resolution_entries(m) == Map::<(Seq<char>, u32), Option<Seq<char>>>::empty()),
{
    DashMap::with_hasher(FxBuildHasher)
}

/// Calls `DashMap::get`. Trusted: the result is the value under the key
/// `(token, dir)`, if the table holds one.
#[verifier::external_body]
pub(crate) fn resolutions_get(
    m: &DashMap<(String, u32), Option<String>, FxBuildHasher>,
    token: &str,
    dir: u32,
) -> (r: Option<Option<String>>)
    ensures
        r.deep_view() == resolution_entries(*m).get((token@, dir)),
{
    m.get(&(token.to_string(), dir)).map(|e| e.value().clone())
}

/// Calls `DashMap::insert`. Trusted: afterwards the key `(token, dir)` maps
/// to `value`, and every other key is as before.
#[verifier::external_body]
pub(crate) fn resolutions_insert(
    m: &mut DashMap<(String, u32), Option<String>, FxBuildHasher>,
    token: String,
    dir: u32,
    value: Option<String>,
)
    ensures
        resolution_entries(*final(m)) == resolution_entries(*old(m)).insert(
            (token@, dir),
            value.deep_view(),
        ),
{
    m.insert((token, dir), value);
}

/// Calls `DashMap::with_hasher`. Trusted: the new table is empty.
#[verifier::external_body]
pub(crate) fn claims_new() -> (m: DashMap<String, String, FxBuildHasher>)
    ensures
        (claim_entries(m) == Map::<Seq<char>, Seq<char>>::empty()),
{
    DashMap::with_hasher(FxBuildHasher)
}

/// Calls `DashMap::contains_key`. Trusted: the result says whether the table
/// holds `key`.
#[verifier::external_body]
pub(crate) fn claims_contains(m: &DashMap<String, String, FxBuildHasher>, key: &str) -> (b: bool)
    ensures
        b == claim_entries(*m).contains_key(key@),
{
    m.contains_key(key)
}

/// Calls `DashMap::insert`. Trusted: afterwards `key` maps to `value`, and
/// every other key is as before.
#[verifier::external_body]
pub(crate) fn claims_insert(m: &mut DashMap<String, String, FxBuildHasher>, key: String, value: String)
    ensures
        claim_entries(*final(m)) == claim_entries(*old(m)).insert(key@, value@),
{
    m.insert(key, value);
}

/// Calls `DashMap::iter` and copies each entry out. Trusted: every entry of
/// the table is listed once, and nothing else is. The order is the table's
/// own and is not stated.
#[verifier::external_body]
pub(crate) fn claims_list(m: &DashMap<String, String, FxBuildHasher>) -> (r: Vec<(String, String)>)
    ensures
        forall|i: int|
            0 <= i < r.len() ==> claim_entries(*m).contains_pair(
                (#[trigger] r[i]).0@,
                r[i].1@,
            ),
        forall|i: int, j: int| 0 <= i < j < r.len() ==> r[i].0@ != r[j].0@,
        forall|k: Seq<char>|
            claim_entries(*m).contains_key(k) ==> exists|i: int|
                0 <= i < r.len() && (#[trigger] r[i]).0@ == k,
{
    m.iter().map(|e| (e.key().clone(), e.value().clone())).collect()
}

} // verus!
