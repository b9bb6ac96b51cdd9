//! The boundary to the hash collections and the random source that the
//! library builds on. Everything here is believed, not proved: each item
//! says which outside function it stands for and what is claimed of it.

use bevy::platform::collections::{HashMap, HashSet};
use bevy::platform::hash::FixedHasher;
use rand::rngs::ThreadRng;
use rand::seq::IteratorRandom;
use std::hash::Hash;
use vstd::prelude::*;

use crate::grid::{GridEntry, GridIndex};
use crate::path::dijkstra::TileState;

verus! {

/// `bevy::platform::hash::FixedHasher`, carried through as an opaque value.
#[verifier::external_type_specification]
#[verifier::external_body]
pub struct ExFixedHasher(FixedHasher);

/// `bevy::platform::collections::HashMap`, opaque but for the names below.
#[verifier::external_type_specification]
#[verifier::external_body]
#[verifier::reject_recursive_types(K)]
#[verifier::reject_recursive_types(V)]
#[verifier::reject_recursive_types(S)]
pub struct ExHashMap<K, V, S>(HashMap<K, V, S>);

/// `bevy::platform::collections::HashSet`, opaque.
#[verifier::external_type_specification]
#[verifier::external_body]
#[verifier::reject_recursive_types(T)]
#[verifier::reject_recursive_types(S)]
pub struct ExHashSet<T, S>(HashSet<T, S>);

/// `rand::rngs::ThreadRng`, the thread-local generator, opaque.
#[verifier::external_type_specification]
#[verifier::external_body]
pub struct ExThreadRng(ThreadRng);

/// What a map from cells to distances holds.
pub uninterp spec fn distance_entries(m: HashMap<(i32, i32), u32>) -> Map<(i32, i32), u32>;

/// What a map from cells to predecessor cells holds.
pub uninterp spec fn predecessor_entries(m: HashMap<(i32, i32), GridIndex>) -> Map<
    (i32, i32),
    GridIndex,
>;

/// What a map from cells to tile states holds.
pub uninterp spec fn tile_entries(m: HashMap<(i32, i32), TileState>) -> Map<(i32, i32), TileState>;

/// What a map from cells to grid entries holds.
pub uninterp spec fn grid_entries(m: HashMap<(i32, i32), GridEntry>) -> Map<(i32, i32), GridEntry>;

/// What a map from entity identifiers to cells holds.
pub uninterp spec fn entity_cells(m: HashMap<u64, GridIndex>) -> Map<u64, GridIndex>;

/// What a map from cells to sets of entity identifiers holds.
pub uninterp spec fn occupants(m: HashMap<(i32, i32), HashSet<u64>>) -> Map<(i32, i32), Set<u64>>;

/// The contents of an outside map, as a mathematical map. Each kind of map
/// the library keeps gets its contents from the name declared for it above.
pub trait Entries<K, V>: Sized {
    spec fn entries(&self) -> Map<K, V>;

    /// A map of this kind that holds nothing.
    fn fresh() -> (m: Self)
        ensures
            m.entries() =~= Map::empty(),
    ;
}

impl Entries<(i32, i32), u32> for HashMap<(i32, i32), u32> {
    open spec fn entries(&self) -> Map<(i32, i32), u32> {
        distance_entries(*self)
    }

    fn fresh() -> (m: Self) {
        new_distance_map()
    }
}

impl Entries<(i32, i32), GridIndex> for HashMap<(i32, i32), GridIndex> {
    open spec fn entries(&self) -> Map<(i32, i32), GridIndex> {
        predecessor_entries(*self)
    }

    fn fresh() -> (m: Self) {
        new_predecessor_map()
    }
}

impl Entries<(i32, i32), TileState> for HashMap<(i32, i32), TileState> {
    open spec fn entries(&self) -> Map<(i32, i32), TileState> {
        tile_entries(*self)
    }

    fn fresh() -> (m: Self) {
        new_tile_map()
    }
}

impl Entries<(i32, i32), GridEntry> for HashMap<(i32, i32), GridEntry> {
    open spec fn entries(&self) -> Map<(i32, i32), GridEntry> {
        grid_entries(*self)
    }

    fn fresh() -> (m: Self) {
        new_grid_map()
    }
}

impl Entries<u64, GridIndex> for HashMap<u64, GridIndex> {
    open spec fn entries(&self) -> Map<u64, GridIndex> {
        entity_cells(*self)
    }

    fn fresh() -> (m: Self) {
        new_entity_map()
    }
}

/// `HashMap::new` for a distance map: the new map holds nothing.
#[verifier::external_body]
fn new_distance_map() -> (m: HashMap<(i32, i32), u32>)
    ensures
        distance_entries(m) =~= Map::empty(),
{
    HashMap::new()
}

/// `HashMap::new` for a predecessor map: the new map holds nothing.
#[verifier::external_body]
fn new_predecessor_map() -> (m: HashMap<(i32, i32), GridIndex>)
    ensures
        predecessor_entries(m) =~= Map::empty(),
{
    HashMap::new()
}

/// `HashMap::new` for a tile-state map: the new map holds nothing.
#[verifier::external_body]
fn new_tile_map() -> (m: HashMap<(i32, i32), TileState>)
    ensures
        tile_entries(m) =~= Map::empty(),
{
    HashMap::new()
}

/// `HashMap::new` for a grid-entry map: the new map holds nothing.
#[verifier::external_body]
fn new_grid_map() -> (m: HashMap<(i32, i32), GridEntry>)
    ensures
        grid_entries(m) =~= Map::empty(),
{
    HashMap::new()
}

/// `HashMap::new` for an entity map: the new map holds nothing.
#[verifier::external_body]
fn new_entity_map() -> (m: HashMap<u64, GridIndex>)
    ensures
        entity_cells(m) =~= Map::empty(),
{
    HashMap::new()
}

/// `HashMap::new` for an occupant map: the new map holds nothing.
#[verifier::external_body]
pub(crate) fn new_occupant_map() -> (m: HashMap<(i32, i32), HashSet<u64>>)
    ensures
        occupants(m) =~= Map::empty(),
{
    HashMap::new()
}

/// `HashMap::get`: the value stored under `k`, if there is one.
#[verifier::external_body]
pub(crate) fn map_get<K: Copy + Eq + Hash, V: Copy>(m: &HashMap<K, V>, k: K) -> (r: Option<V>)
    where HashMap<K, V>: Entries<K, V>
    ensures
        r == (if m.entries().contains_key(k) {
            Some(m.entries()[k])
        } else {
            None
        }),
{
    m.get(&k).copied()
}

/// `HashMap::insert`: afterwards `k` maps to `v`, and every other key is as
/// it was.
#[verifier::external_body]
pub(crate) fn map_insert<K: Copy + Eq + Hash, V: Copy>(m: &mut HashMap<K, V>, k: K, v: V)
    where HashMap<K, V>: Entries<K, V>
    ensures
        final(m).entries() == old(m).entries().insert(k, v),
{
    m.insert(k, v);
}

/// `HashMap::remove`: returns what was stored under `k`, and afterwards `k`
/// is absent while every other key is as it was.
#[verifier::external_body]
pub(crate) fn map_remove<K: Copy + Eq + Hash, V: Copy>(m: &mut HashMap<K, V>, k: K) -> (r: Option<V>)
    where HashMap<K, V>: Entries<K, V>
    ensures
        r == (if old(m).entries().contains_key(k) {
            Some(old(m).entries()[k])
        } else {
            None
        }),
        final(m).entries() == old(m).entries().remove(k),
{
    m.remove(&k)
}

/// `HashMap::clear`: afterwards the map holds nothing.
#[verifier::external_body]
pub(crate) fn map_clear<K: Copy + Eq + Hash, V: Copy>(m: &mut HashMap<K, V>)
    where HashMap<K, V>: Entries<K, V>
    ensures
        final(m).entries() =~= Map::empty(),
{
    m.clear();
}

/// A map with exactly `n` keys.
pub open spec fn holds_exactly<K, V>(entries: Map<K, V>, n: nat) -> bool {
    entries.dom().finite() && entries.dom().len() == n
}

/// `HashMap::len`: the number of keys the map holds.
#[verifier::external_body]
pub(crate) fn map_len<K: Copy + Eq + Hash, V: Copy>(m: &HashMap<K, V>) -> (n: usize)
    where HashMap<K, V>: Entries<K, V>
    ensures
        holds_exactly(m.entries(), n as nat),
{
    m.len()
}

/// `HashMap::keys`, collected: every key exactly once, in the order in which
/// the map is walked, of which nothing is claimed.
#[verifier::external_body]
pub(crate) fn map_keys<K: Copy + Eq + Hash, V: Copy>(m: &HashMap<K, V>) -> (keys: Vec<K>)
    where HashMap<K, V>: Entries<K, V>
    ensures
        keys@.no_duplicates(),
        forall|k: K| keys@.contains(k) <==> m.entries().contains_key(k),
{
    m.keys().copied().collect()
}

/// `HashMap::entry` followed by `or_default` and `HashSet::insert`:
/// afterwards the set under `cell` holds `entity` besides what it held
/// (nothing, where the cell was absent), and every other cell is as it was.
#[verifier::external_body]
pub(crate) fn occupants_add(m: &mut HashMap<(i32, i32), HashSet<u64>>, cell: (i32, i32), entity: u64)
    ensures
        occupants(*final(m)) == occupants(*old(m)).insert(
            cell,
            (if occupants(*old(m)).contains_key(cell) {
                occupants(*old(m))[cell]
            } else {
                Set::empty()
            }).insert(entity),
        ),
{
    m.entry(cell).or_default().insert(entity);
}

/// `HashMap::entry` followed by `and_modify` with `HashSet::remove`: where
/// `cell` is present its set loses `entity`; nothing else changes.
#[verifier::external_body]
pub(crate) fn occupants_remove(
    m: &mut HashMap<(i32, i32), HashSet<u64>>,
    cell: (i32, i32),
    entity: u64,
)
    ensures
        occupants(*final(m)) == (if occupants(*old(m)).contains_key(cell) {
            occupants(*old(m)).insert(cell, occupants(*old(m))[cell].remove(entity))
        } else {
            occupants(*old(m))
        }),
{
    m.entry(cell).and_modify(|s| {
        s.remove(&entity);
    });
}

/// `HashMap::get` followed by `HashSet::iter`, collected: every entity of
/// the set under `cell` exactly once, and nothing where the cell is absent.
#[verifier::external_body]
pub(crate) fn occupants_at(m: &HashMap<(i32, i32), HashSet<u64>>, cell: (i32, i32)) -> (found: Vec<
    u64,
>)
    ensures
        found@.no_duplicates(),
        forall|e: u64|
            found@.contains(e) <==> (occupants(*m).contains_key(cell) && occupants(
                *m,
            )[cell].contains(e)),
{
    m.get(&cell).into_iter().flatten().copied().collect()
}

/// `rand::rng`: a handle to the thread-local generator.
#[verifier::external_body]
pub(crate) fn thread_rng() -> ThreadRng {
    rand::rng()
}

/// `IteratorRandom::choose` on the positions `0..len`: a position below
/// `len`, and `None` exactly when there is none. Which position comes back is
/// left open.
#[verifier::external_body]
pub(crate) fn choose_position(len: usize, rng: &mut ThreadRng) -> (pick: Option<usize>)
    ensures
        pick is None <==> len == 0,
        pick is Some ==> pick->0 < len,
{
    (0..len).choose(rng)
}

/// `Rng::random_range` on `low..=high`: a value within the bounds. The range
/// must not be empty.
#[verifier::external_body]
pub(crate) fn random_between(low: usize, high: usize, rng: &mut ThreadRng) -> (n: usize)
    requires
        low <= high,
    ensures
        low <= n <= high,
{
    rand::Rng::random_range(rng, low..=high)
}

} // verus!
