//! The two maps of the chunk index, kept in concurrent hash maps.

use super::hasher::RandomizingHasherBuilder;
use super::ChunkHash;
use dashmap::DashMap;
use vstd::prelude::*;

verus! {

/// `dashmap::DashMap`, taken as it is: of what a map holds nothing is known
/// but what the functions below state.
#[verifier::external_type_specification]
#[verifier::external_body]
#[verifier::reject_recursive_types(K)]
#[verifier::reject_recursive_types(V)]
#[verifier::reject_recursive_types(S)]
pub struct ExDashMap<K, V, S>(DashMap<K, V, S>);

/// The map from identifiers to chunks.
pub type IdMap = DashMap<u64, (ChunkHash, u64), RandomizingHasherBuilder>;

/// The map from digests to identifiers.
pub type HashIndex = DashMap<ChunkHash, u64, RandomizingHasherBuilder>;

/// What the map from identifiers to chunks holds: for each identifier the
/// digest of its chunk and the number of references to it.
pub uninterp spec fn id_map_contents(
    map: DashMap<u64, (ChunkHash, u64), RandomizingHasherBuilder>,
) -> Map<u64, (Seq<u8>, u64)>;

/// What the map from digests to identifiers holds.
pub uninterp spec fn hash_map_contents(map: DashMap<ChunkHash, u64, RandomizingHasherBuilder>)
    -> Map<Seq<u8>, u64>;

/// Calls `DashMap::with_capacity_and_hasher_and_shard_amount`, which gives a
/// map without entries; it panics unless the shard amount is a power of two
/// above one.
#[verifier::external_body]
pub(crate) fn id_map_new(capacity: usize, shard_amount: usize) -> (map: IdMap)
    requires
        capacity <= 0x1_0000,
        shard_amount == 1024,
    ensures
        forall|id: u64| !id_map_contents(map).contains_key(id),
{
    DashMap::with_capacity_and_hasher_and_shard_amount(
        capacity,
        RandomizingHasherBuilder,
        shard_amount,
    )
}

/// Calls `DashMap::get`, which gives the value that is held for a key, and
/// copies what it refers to.
#[verifier::external_body]
pub(crate) fn id_map_get(map: &IdMap, id: u64) -> (entry: Option<(ChunkHash, u64)>)
    ensures
        entry is Some == id_map_contents(*map).contains_key(id),
        entry is Some ==> (entry.unwrap().0@, entry.unwrap().1) == id_map_contents(*map)[id],
{
    map.get(&id).map(|entry| *entry.value())
}

/// Calls `DashMap::insert`, which puts a value under a key, in place of the
/// value that was there.
#[verifier::external_body]
pub(crate) fn id_map_insert(map: &mut IdMap, id: u64, hash: ChunkHash, count: u64)
    ensures
        id_map_contents(*final(map)) == id_map_contents(*old(map)).insert(id, (hash@, count)),
{
    map.insert(id, (hash, count));
}

/// Calls `DashMap::remove`, which takes a key and its value out where the
/// key is held.
#[verifier::external_body]
pub(crate) fn id_map_remove(map: &mut IdMap, id: u64)
    ensures
        id_map_contents(*final(map)) == id_map_contents(*old(map)).remove(id),
{
    map.remove(&id);
}

/// Calls `DashMap::iter` and copies key and value of every entry it yields:
/// each key that is held comes once, in no order that can be relied on.
#[verifier::external_body]
pub(crate) fn id_map_entries(map: &IdMap) -> (all: Vec<(u64, ChunkHash, u64)>)
    ensures
        forall|i: int|
            0 <= i < all@.len() ==> id_map_contents(*map).contains_key((#[trigger] all@[i]).0)
                && id_map_contents(*map)[all@[i].0] == (all@[i].1@, all@[i].2),
        forall|id: u64|
            id_map_contents(*map).contains_key(id) ==> exists|i: int|
                0 <= i < all@.len() && (#[trigger] all@[i]).0 == id,
        forall|i: int, j: int|
            0 <= i < j < all@.len() ==> (#[trigger] all@[i]).0 != (#[trigger] all@[j]).0,
{
    map.iter().map(|entry| (*entry.key(), entry.value().0, entry.value().1)).collect()
}

/// Calls `DashMap::with_capacity_and_hasher_and_shard_amount`, which gives a
/// map without entries; it panics unless the shard amount is a power of two
/// above one.
#[verifier::external_body]
pub(crate) fn hash_map_new(capacity: usize, shard_amount: usize) -> (map: HashIndex)
    requires
        capacity <= 0x1_0000,
        shard_amount == 1024,
    ensures
        forall|hash: Seq<u8>| !hash_map_contents(map).contains_key(hash),
{
    DashMap::with_capacity_and_hasher_and_shard_amount(
        capacity,
        RandomizingHasherBuilder,
        shard_amount,
    )
}

/// Calls `DashMap::get`, which gives the value that is held for a key, and
/// copies what it refers to.
#[verifier::external_body]
pub(crate) fn hash_map_get(map: &HashIndex, hash: &ChunkHash) -> (id: Option<u64>)
    ensures
        id is Some == hash_map_contents(*map).contains_key(hash@),
        id is Some ==> id.unwrap() == hash_map_contents(*map)[hash@],
{
    map.get(hash).map(|entry| *entry.value())
}

/// Calls `DashMap::insert`, which puts a value under a key, in place of the
/// value that was there.
#[verifier::external_body]
pub(crate) fn hash_map_insert(map: &mut HashIndex, hash: ChunkHash, id: u64)
    ensures
        hash_map_contents(*final(map)) == hash_map_contents(*old(map)).insert(hash@, id),
{
    map.insert(hash, id);
}

/// Calls `DashMap::remove`, which takes a key and its value out where the
/// key is held.
#[verifier::external_body]
pub(crate) fn hash_map_remove(map: &mut HashIndex, hash: &ChunkHash)
    ensures
        hash_map_contents(*final(map)) == hash_map_contents(*old(map)).remove(hash@),
{
    map.remove(hash);
}

} // verus!
