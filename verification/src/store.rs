//! Access to the hash tables of `rustc_hash`.
//!
//! `FxHashMap<K, V>` is std's `HashMap` with the hasher builder
//! `FxBuildHasher`. The functions here are the only places where the tables
//! are touched; their contracts are taken on trust from the documentation of
//! `std::collections::HashMap` and are stated over the table's view as a
//! mathematical map.

use crate::model::TagId;
use rustc_hash::FxHashMap;
use vstd::prelude::*;

verus! {

/// The hasher builder of `rustc_hash`, a unit struct carried as a type
/// parameter of every table.
#[verifier::external_type_specification]
#[verifier::external_body]
pub struct ExFxBuildHasher(rustc_hash::FxBuildHasher);

/// `FxHashMap::default()`: a table without entries.
#[verifier::external_body]
pub(crate) fn table_new<V>() -> (table: FxHashMap<u32, V>)
    ensures
        forall|key: u32| !table@.contains_key(key),
{
    FxHashMap::default()
}

/// `HashMap::insert`: afterwards `key` maps to `value`, every other key is
/// as before. A value that was stored under `key` is dropped.
#[verifier::external_body]
pub(crate) fn table_insert<V>(table: &mut FxHashMap<u32, V>, key: u32, value: V)
    ensures
        final(table)@ == old(table)@.insert(key, value),
{
    table.insert(key, value);
}

/// `HashMap::get`: the value stored under `key`, if there is one.
#[verifier::external_body]
pub(crate) fn table_get<'a, V>(table: &'a FxHashMap<u32, V>, key: u32) -> (found: Option<&'a V>)
    ensures
        match found {
            Some(value) => table@.contains_key(key) && *value == table@[key],
            None => !table@.contains_key(key),
        },
{
    table.get(&key)
}

/// `HashMap::remove`: takes the entry of `key` out of the table and returns
/// its value, if there was one.
#[verifier::external_body]
pub(crate) fn table_remove<V>(table: &mut FxHashMap<u32, V>, key: u32) -> (taken: Option<V>)
    ensures
        final(table)@ == old(table)@.remove(key),
        match taken {
            Some(value) => old(table)@.contains_key(key) && value == old(table)@[key],
            None => !old(table)@.contains_key(key),
        },
{
    table.remove(&key)
}

/// `HashMap::keys`: every key of the table exactly once, in no stated order.
#[verifier::external_body]
pub(crate) fn table_keys<V>(table: &FxHashMap<u32, V>) -> (keys: Vec<u32>)
    ensures
        keys@.no_duplicates(),
        forall|key: u32| keys@.contains(key) <==> table@.contains_key(key),
{
    table.keys().copied().collect()
}

/// What a name index holds: for each name the number of the tag identifier
/// stored under it. Names are taken as sequences of characters, so that two
/// strings of the same text are one key, as they are to `HashMap`.
pub uninterp spec fn name_entries(names: FxHashMap<String, TagId>) -> Map<Seq<char>, u32>;

/// `FxHashMap::default()`: a name index without entries.
#[verifier::external_body]
pub(crate) fn names_new() -> (names: FxHashMap<String, TagId>)
    ensures
        forall|name: Seq<char>| !name_entries(names).contains_key(name),
{
    FxHashMap::default()
}

/// `HashMap::insert`: afterwards `name` resolves to `id`, every other name
/// is as before.
#[verifier::external_body]
pub(crate) fn names_insert(names: &mut FxHashMap<String, TagId>, name: String, id: TagId)
    ensures
        name_entries(*final(names)) == name_entries(*old(names)).insert(name@, id.0),
{
    names.insert(name, id);
}

/// `HashMap::get`: the identifier stored under `name`, if there is one.
#[verifier::external_body]
pub(crate) fn names_get(names: &FxHashMap<String, TagId>, name: &str) -> (found: Option<TagId>)
    ensures
        match found {
            Some(id) => name_entries(*names).contains_key(name@) && id.0 == name_entries(
                *names,
            )[name@],
            None => !name_entries(*names).contains_key(name@),
        },
{
    names.get(name).copied()
}

} // verus!
