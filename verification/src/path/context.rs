//! Caches: keyed stores with a choice of what a write to an absent key does.

use bevy::platform::collections::HashMap;
use vstd::prelude::*;

use super::dijkstra::TileState;
use crate::grid::{
    by_cell, entry_can_be_path, in_region, lemma_by_cell_insert, lemma_by_cell_remove,
    lemma_by_cell_size, lemma_take_next_contains, outer_column, region_cells, region_fits,
    row_shift, GridEntry, GridIndex, HexGridColumns, HexGridRows, HexHashGrid,
};
use crate::store::{holds_exactly, map_clear, map_get, map_insert, map_keys, map_len, map_remove, Entries};

verus! {

/// What a write to a cache did.
#[derive(Debug, PartialEq, Eq, Hash, Clone, Copy, Structural)]
pub enum CacheUpdateResult {
    Inserted,
    Updated,
    Ignored,
}

/// How a cache treats a write to a key it does not hold.
pub trait CacheBehaviour {
    /// Whether such a write creates the entry.
    spec fn inserts_missing() -> bool;
}

/// Writes to absent keys are dropped.
pub struct IgnoreMissingEntries;

impl CacheBehaviour for IgnoreMissingEntries {
    open spec fn inserts_missing() -> bool {
        false
    }
}

/// Writes to absent keys create the entry.
pub struct InsertMissingEntries;

impl CacheBehaviour for InsertMissingEntries {
    open spec fn inserts_missing() -> bool {
        true
    }
}

/// How a write of `value` under `key` relates the entries before and after
/// to what the write reports: an absent key is created where the cache
/// inserts missing entries and left absent where it does not; a present key
/// is either overwritten or left as it was.
pub open spec fn write_outcome<K, V>(
    before: Map<K, V>,
    after: Map<K, V>,
    key: K,
    value: V,
    inserts_missing: bool,
    done: CacheUpdateResult,
) -> bool {
    if !before.contains_key(key) {
        if inserts_missing {
            done == CacheUpdateResult::Inserted && after == before.insert(key, value)
        } else {
            done == CacheUpdateResult::Ignored && after == before
        }
    } else {
        ||| done == CacheUpdateResult::Updated && after == before.insert(key, value)
        ||| done == CacheUpdateResult::Ignored && after == before
    }
}

/// Whether the comparison `less` computes the relation `lt`: whatever it
/// answers for a pair is what `lt` says of the pair.
pub open spec fn computes<V, F: Fn(&V, &V) -> bool>(less: F, lt: spec_fn(V, V) -> bool) -> bool {
    forall|a: V, b: V, answer: bool| #[trigger] less.ensures((&a, &b), answer) ==> answer == lt(a, b)
}

/// Whether `lt` puts no value before itself and, where it puts `a` before
/// `b` and `b` before `c`, puts `a` before `c`.
pub open spec fn is_strict_order<V>(lt: spec_fn(V, V) -> bool) -> bool {
    &&& forall|a: V| !#[trigger] lt(a, a)
    &&& forall|a: V, b: V, c: V| #[trigger] lt(a, b) && #[trigger] lt(b, c) ==> lt(a, c)
}

/// Whether `lt` puts the value of no entry of `entries` before `v`.
pub open spec fn none_before<K, V>(entries: Map<K, V>, lt: spec_fn(V, V) -> bool, v: V) -> bool {
    forall|other: K| #[trigger] entries.contains_key(other) ==> !lt(entries[other], v)
}

/// Whether `found` is an entry of `entries` that comes first by `less`:
/// whatever strict order `less` computes, it puts the value of no entry
/// before the one found. `None` where there is no entry.
pub open spec fn is_first_by<K, V, F: Fn(&V, &V) -> bool>(
    entries: Map<K, V>,
    less: F,
    found: Option<(K, V)>,
) -> bool {
    match found {
        Some((k, v)) => entries.contains_key(k) && entries[k] == v && forall|
            lt: spec_fn(V, V) -> bool,
        |
            #[trigger] computes(less, lt) && is_strict_order(lt) ==> none_before(entries, lt, v),
        None => forall|other: K| !#[trigger] entries.contains_key(other),
    }
}

/// A keyed store whose writes follow the behaviour `B`.
pub trait Cache<B: CacheBehaviour> {
    type Access;

    type Output;

    /// The entries the cache holds.
    spec fn entries(&self) -> Map<Self::Access, Self::Output>;

    fn behaviour(&self) -> B;

    fn get(&self, access: &Self::Access) -> (found: Option<Self::Output>)
        ensures
            found == (if self.entries().contains_key(*access) {
                Some(self.entries()[*access])
            } else {
                None
            }),
    ;

    /// Writes `value` under `access`: an absent key is created or left
    /// absent as `B` says; a present one is overwritten exactly when
    /// `should_update` accepts the value it holds.
    fn update<C: Fn(&Self::Output) -> bool>(
        &mut self,
        access: &Self::Access,
        value: Self::Output,
        should_update: C,
    ) -> (done: CacheUpdateResult)
        requires
            old(self).entries().contains_key(*access) ==> should_update.requires(
                (&old(self).entries()[*access],),
            ),
        ensures
            write_outcome(
                old(self).entries(),
                final(self).entries(),
                *access,
                value,
                B::inserts_missing(),
                done,
            ),
            old(self).entries().contains_key(*access) ==> should_update.ensures(
                (&old(self).entries()[*access],),
                done == CacheUpdateResult::Updated,
            ),
    ;

    fn clear(&mut self)
        ensures
            final(self).entries() == Map::<Self::Access, Self::Output>::empty(),
    ;

    /// An entry before whose value `less` puts no other, found by a full
    /// scan in the order in which the store is walked.
    fn min_by<F: Fn(&Self::Output, &Self::Output) -> bool>(&self, less: F) -> (found: Option<
        (Self::Access, Self::Output),
    >)
        requires
            forall|a: Self::Output, b: Self::Output| less.requires((&a, &b)),
        ensures
            self.entries().dom().finite(),
            is_first_by(self.entries(), less, found),
    ;

    fn remove(&mut self, access: &Self::Access) -> (taken: Option<Self::Output>)
        ensures
            taken == (if old(self).entries().contains_key(*access) {
                Some(old(self).entries()[*access])
            } else {
                None
            }),
            final(self).entries() == old(self).entries().remove(*access),
    ;

    fn len(&self) -> (n: usize)
        ensures
            holds_exactly(self.entries(), n as nat),
    ;

    fn is_empty(&self) -> (empty: bool)
        ensures
            empty <==> self.entries().dom() =~= Set::empty(),
    ;

    /// Every key once, in the order in which the store is walked.
    fn keys(&self) -> (keys: Vec<Self::Access>)
        ensures
            keys@.no_duplicates(),
            forall|k: Self::Access| keys@.contains(k) <==> self.entries().contains_key(k),
    ;
}

/// The map that a list of pairs fills, a later pair replacing an earlier
/// one with the same key.
pub open spec fn collected<K, V>(pairs: Seq<(K, V)>) -> Map<K, V>
    decreases pairs.len(),
{
    if pairs.len() == 0 {
        Map::empty()
    } else {
        collected(pairs.drop_last()).insert(pairs.last().0, pairs.last().1)
    }
}

/// Every entry of the map that `pairs` fill is one of the pairs.
pub proof fn lemma_collected_entries<K, V>(pairs: Seq<(K, V)>, k: K)
    requires
        collected(pairs).contains_key(k),
    ensures
        exists|i: int| 0 <= i < pairs.len() && #[trigger] pairs[i] == (k, collected(pairs)[k]),
    decreases pairs.len(),
{
    if pairs.last().0 == k {
        assert(pairs[pairs.len() - 1] == (k, collected(pairs)[k]));
    } else {
        lemma_collected_entries(pairs.drop_last(), k);
        let i = choose|i: int|
            0 <= i < pairs.drop_last().len() && #[trigger] pairs.drop_last()[i] == (
                k,
                collected(pairs.drop_last())[k],
            );
        assert(pairs[i] == (k, collected(pairs)[k]));
    }
}

/// The key of every pair is a key of the map that the pairs fill.
pub proof fn lemma_collected_has<K, V>(pairs: Seq<(K, V)>, i: int)
    requires
        0 <= i < pairs.len(),
    ensures
        collected(pairs).contains_key(pairs[i].0),
    decreases pairs.len(),
{
    if i < pairs.len() - 1 {
        lemma_collected_has(pairs.drop_last(), i);
    }
}

/// A cache that can be filled from a list of entries.
pub trait CollectCache<B: CacheBehaviour>: Cache<B> + Sized {
    fn from_entries(pairs: Vec<(Self::Access, Self::Output)>) -> (cache: Self)
        ensures
            cache.entries() == collected(pairs@),
    ;
}

/// Whether `found` is an entry of `entries` with the least value, or `None`
/// where there is no entry. Which of several least entries is meant is left
/// open.
pub open spec fn is_least_entry<K>(entries: Map<K, u32>, found: Option<(K, u32)>) -> bool {
    match found {
        Some((k, v)) => entries.contains_key(k) && entries[k] == v && forall|other: K|
            entries.contains_key(other) ==> v <= #[trigger] entries[other],
        None => forall|other: K| !entries.contains_key(other),
    }
}

/// A cache of distances: reads its least entry and lowers entries.
pub trait DistanceCache: Cache<IgnoreMissingEntries, Output = u32> {
    /// An entry with the least distance, found by a full scan.
    fn get_min(&self) -> (least: Option<(Self::Access, u32)>)
        ensures
            self.entries().dom().finite(),
            is_least_entry(self.entries(), least),
    ;

    /// Lowers the distance under `access` to `value`: the entry is
    /// overwritten exactly when it is present and `value` is less than what
    /// it holds.
    fn update_distance(&mut self, access: &Self::Access, value: u32) -> (done: CacheUpdateResult)
        ensures
            write_outcome(
                old(self).entries(),
                final(self).entries(),
                *access,
                value,
                false,
                done,
            ),
            old(self).entries().contains_key(*access) ==> (done == CacheUpdateResult::Updated
                <==> value < old(self).entries()[*access]),
    ;
}

impl<C: Cache<IgnoreMissingEntries, Output = u32>> DistanceCache for C where C::Access: Copy {
    fn get_min(&self) -> (least: Option<(Self::Access, u32)>) {
        let less = |l: &u32, r: &u32| -> (before: bool)
            ensures
                before == (*l < *r),
            { *l < *r };
        let least = self.min_by(less);
        proof {
            let lt = |a: u32, b: u32| a < b;
            assert(computes(less, lt));
            assert(is_strict_order(lt));
            match least {
                Some((k, v)) => {
                    assert(none_before(self.entries(), lt, v));
                    assert forall|other: Self::Access|
                        self.entries().contains_key(other) implies v
                        <= #[trigger] self.entries()[other] by {
                        assert(!lt(self.entries()[other], v));
                    }
                },
                None => {},
            }
        }
        least
    }

    fn update_distance(&mut self, access: &Self::Access, value: u32) -> (done: CacheUpdateResult) {
        self.update(access, value, |held: &u32| -> (lower: bool)
            ensures
                lower == (value < *held),
            { value < *held })
    }
}

/// A store keyed by cells, kept in a hash map.
#[verifier::reject_recursive_types(V)]
pub struct CellMap<V> where HashMap<(i32, i32), V>: Entries<(i32, i32), V> {
    storage: HashMap<(i32, i32), V>,
}

impl<V: Copy> CellMap<V> where HashMap<(i32, i32), V>: Entries<(i32, i32), V> {
    /// The entries held, keyed by cell.
    pub closed spec fn view(&self) -> Map<GridIndex, V> {
        by_cell(self.storage.entries())
    }

    /// A store without entries.
    pub fn new() -> (m: Self)
        ensures
            m@ == Map::<GridIndex, V>::empty(),
    {
        let m = CellMap { storage: HashMap::<(i32, i32), V>::fresh() };
        assert(m@ =~= Map::<GridIndex, V>::empty());
        m
    }

    /// The value held under `access`.
    pub fn get(&self, access: &GridIndex) -> (found: Option<V>)
        ensures
            found == (if self@.contains_key(*access) {
                Some(self@[*access])
            } else {
                None
            }),
    {
        map_get(&self.storage, (access.q, access.r))
    }

    /// Puts `value` under `access`, whatever was there.
    pub fn insert(&mut self, access: &GridIndex, value: V)
        ensures
            final(self)@ == old(self)@.insert(*access, value),
    {
        proof {
            lemma_by_cell_insert(self.storage.entries(), *access, value);
        }
        map_insert(&mut self.storage, (access.q, access.r), value);
    }

    /// Takes out what is held under `access`.
    pub fn remove(&mut self, access: &GridIndex) -> (taken: Option<V>)
        ensures
            taken == (if old(self)@.contains_key(*access) {
                Some(old(self)@[*access])
            } else {
                None
            }),
            final(self)@ == old(self)@.remove(*access),
    {
        proof {
            lemma_by_cell_remove(self.storage.entries(), *access);
        }
        map_remove(&mut self.storage, (access.q, access.r))
    }

    /// Empties the store.
    pub fn clear(&mut self)
        ensures
            final(self)@ == Map::<GridIndex, V>::empty(),
    {
        map_clear(&mut self.storage);
        assert(self@ =~= Map::<GridIndex, V>::empty());
    }

    /// The number of entries.
    pub fn len(&self) -> (n: usize)
        ensures
            holds_exactly(self@, n as nat),
    {
        let n = map_len(&self.storage);
        proof {
            lemma_by_cell_size(self.storage.entries());
        }
        n
    }

    /// An entry before whose value `less` puts no other, found by a full
    /// scan in the order in which the underlying map is walked.
    pub fn least_by<F: Fn(&V, &V) -> bool>(&self, less: F) -> (found: Option<(GridIndex, V)>)
        requires
            forall|a: V, b: V| less.requires((&a, &b)),
        ensures
            self@.dom().finite(),
            is_first_by(self@, less, found),
    {
        let keys = self.keys();
        proof {
            vstd::seq_lib::seq_to_set_is_finite(keys@);
            assert(self@.dom() =~= keys@.to_set());
        }
        let mut found: Option<(GridIndex, V)> = None;
        let mut i: usize = 0;
        while i < keys.len()
            invariant
                i <= keys.len(),
                forall|a: V, b: V| less.requires((&a, &b)),
                forall|k: GridIndex| keys@.contains(k) <==> self@.contains_key(k),
                i == 0 <==> found is None,
                found matches Some((k, v)) ==> self@.contains_key(k) && self@[k] == v,
                found matches Some((k, v)) ==> forall|lt: spec_fn(V, V) -> bool|
                    #[trigger] computes(less, lt) && is_strict_order(lt) ==> forall|j: int|
                        0 <= j < i ==> !lt(self@[#[trigger] keys@[j]], v),
            decreases keys.len() - i,
        {
            let k = keys[i];
            assert(keys@.contains(k));
            match self.get(&k) {
                Some(v) => {
                    match found {
                        Some((_, held)) => {
                            if less(&v, &held) {
                                found = Some((k, v));
                                proof {
                                    assert forall|lt: spec_fn(V, V) -> bool|
                                        #[trigger] computes(less, lt) && is_strict_order(
                                            lt,
                                        ) implies forall|j: int|
                                        0 <= j < i + 1 ==> !lt(self@[#[trigger] keys@[j]], v) by {
                                        assert(less.ensures((&v, &held), true));
                                        assert(lt(v, held));
                                        assert forall|j: int| 0 <= j < i + 1 implies !lt(
                                            self@[#[trigger] keys@[j]],
                                            v,
                                        ) by {
                                            if j < i {
                                                let e = self@[keys@[j]];
                                                assert(!lt(e, held));
                                                if lt(e, v) {
                                                    assert(lt(e, held));
                                                }
                                            }
                                        }
                                    }
                                }
                            } else {
                                proof {
                                    assert forall|lt: spec_fn(V, V) -> bool|
                                        #[trigger] computes(less, lt) && is_strict_order(
                                            lt,
                                        ) implies forall|j: int|
                                        0 <= j < i + 1 ==> !lt(self@[#[trigger] keys@[j]], held) by {
                                        assert(less.ensures((&v, &held), false));
                                        assert(!lt(v, held));
                                    }
                                }
                            }
                        },
                        None => {
                            found = Some((k, v));
                        },
                    }
                },
                None => {},
            }
            i += 1;
        }
        proof {
            match found {
                Some((k, v)) => {
                    assert forall|lt: spec_fn(V, V) -> bool|
                        #[trigger] computes(less, lt) && is_strict_order(lt) implies none_before(
                        self@,
                        lt,
                        v,
                    ) by {
                        assert forall|other: GridIndex| #[trigger]
                            self@.contains_key(other) implies !lt(self@[other], v) by {
                            assert(keys@.contains(other));
                            let j = choose|j: int| 0 <= j < keys.len() && keys@[j] == other;
                            assert(!lt(self@[keys@[j]], v));
                        }
                    }
                },
                None => {
                    assert forall|other: GridIndex| !#[trigger] self@.contains_key(other) by {
                        if self@.contains_key(other) {
                            assert(keys@.contains(other));
                        }
                    }
                },
            }
        }
        found
    }

    /// Every key once, in the order in which the underlying map is walked.
    pub fn keys(&self) -> (cells: Vec<GridIndex>)
        ensures
            cells@.no_duplicates(),
            forall|c: GridIndex| cells@.contains(c) <==> self@.contains_key(c),
    {
        let keys = map_keys(&self.storage);
        let mut cells: Vec<GridIndex> = Vec::new();
        let mut i: usize = 0;
        while i < keys.len()
            invariant
                i <= keys.len(),
                cells.len() == i,
                forall|j: int| 0 <= j < i ==> (#[trigger] cells@[j]).key() == keys@[j],
            decreases keys.len() - i,
        {
            let k = keys[i];
            cells.push(GridIndex { q: k.0, r: k.1 });
            i += 1;
        }
        assert forall|a: int, b: int| 0 <= a < cells.len() && 0 <= b < cells.len() && a
            != b implies cells@[a] != cells@[b] by {
            assert(cells@[a].key() == keys@[a] && cells@[b].key() == keys@[b]);
        }
        assert forall|c: GridIndex| cells@.contains(c) <==> self@.contains_key(c) by {
            if cells@.contains(c) {
                let j = choose|j: int| 0 <= j < cells.len() && cells@[j] == c;
                assert(cells@[j].key() == keys@[j]);
                assert(keys@.contains(c.key()));
            }
            if self@.contains_key(c) {
                assert(keys@.contains(c.key()));
                let j = choose|j: int| 0 <= j < keys.len() && keys@[j] == c.key();
                assert(cells@[j].key() == c.key());
                assert(cells@[j] == c);
            }
        }
        cells
    }
}

impl<V: Copy> Cache<IgnoreMissingEntries> for CellMap<V> where
    HashMap<(i32, i32), V>: Entries<(i32, i32), V>,
 {
    type Access = GridIndex;

    type Output = V;

    open spec fn entries(&self) -> Map<GridIndex, V> {
        self@
    }

    fn behaviour(&self) -> IgnoreMissingEntries {
        IgnoreMissingEntries
    }

    fn get(&self, access: &GridIndex) -> (found: Option<V>) {
        CellMap::get(self, access)
    }

    fn update<C: Fn(&V) -> bool>(&mut self, access: &GridIndex, value: V, should_update: C) -> (done:
        CacheUpdateResult) {
        match CellMap::get(self, access) {
            Some(held) => {
                if should_update(&held) {
                    CellMap::insert(self, access, value);
                    CacheUpdateResult::Updated
                } else {
                    CacheUpdateResult::Ignored
                }
            },
            None => CacheUpdateResult::Ignored,
        }
    }

    fn clear(&mut self) {
        CellMap::clear(self);
    }

    fn min_by<F: Fn(&V, &V) -> bool>(&self, less: F) -> (found: Option<(GridIndex, V)>) {
        self.least_by(less)
    }

    fn remove(&mut self, access: &GridIndex) -> (taken: Option<V>) {
        CellMap::remove(self, access)
    }

    fn len(&self) -> (n: usize) {
        CellMap::len(self)
    }

    fn is_empty(&self) -> (empty: bool) {
        let n = CellMap::len(self);
        proof {
            if n == 0 {
                assert(self@.dom() =~= Set::empty());
            }
        }
        n == 0
    }

    fn keys(&self) -> (keys: Vec<GridIndex>) {
        CellMap::keys(self)
    }
}

impl<V: Copy> Cache<InsertMissingEntries> for CellMap<V> where
    HashMap<(i32, i32), V>: Entries<(i32, i32), V>,
 {
    type Access = GridIndex;

    type Output = V;

    open spec fn entries(&self) -> Map<GridIndex, V> {
        self@
    }

    fn behaviour(&self) -> InsertMissingEntries {
        InsertMissingEntries
    }

    fn get(&self, access: &GridIndex) -> (found: Option<V>) {
        CellMap::get(self, access)
    }

    fn update<C: Fn(&V) -> bool>(&mut self, access: &GridIndex, value: V, should_update: C) -> (done:
        CacheUpdateResult) {
        match CellMap::get(self, access) {
            Some(held) => {
                if should_update(&held) {
                    CellMap::insert(self, access, value);
                    CacheUpdateResult::Updated
                } else {
                    CacheUpdateResult::Ignored
                }
            },
            None => {
                CellMap::insert(self, access, value);
                CacheUpdateResult::Inserted
            },
        }
    }

    fn clear(&mut self) {
        CellMap::clear(self);
    }

    fn min_by<F: Fn(&V, &V) -> bool>(&self, less: F) -> (found: Option<(GridIndex, V)>) {
        self.least_by(less)
    }

    fn remove(&mut self, access: &GridIndex) -> (taken: Option<V>) {
        CellMap::remove(self, access)
    }

    fn len(&self) -> (n: usize) {
        CellMap::len(self)
    }

    fn is_empty(&self) -> (empty: bool) {
        let n = CellMap::len(self);
        proof {
            if n == 0 {
                assert(self@.dom() =~= Set::empty());
            }
        }
        n == 0
    }

    fn keys(&self) -> (keys: Vec<GridIndex>) {
        CellMap::keys(self)
    }
}

impl<V: Copy> CellMap<V> where HashMap<(i32, i32), V>: Entries<(i32, i32), V> {
    /// The store that `pairs` fill, a later pair replacing an earlier one
    /// with the same key.
    pub fn from_pairs(pairs: Vec<(GridIndex, V)>) -> (m: Self)
        ensures
            m@ == collected(pairs@),
    {
        let mut m = Self::new();
        let mut i: usize = 0;
        while i < pairs.len()
            invariant
                i <= pairs.len(),
                m@ == collected(pairs@.take(i as int)),
            decreases pairs.len() - i,
        {
            let pair = pairs[i];
            assert(pairs@.take(i + 1).drop_last() =~= pairs@.take(i as int));
            m.insert(&pair.0, pair.1);
            i += 1;
        }
        assert(pairs@.take(pairs.len() as int) =~= pairs@);
        m
    }
}

impl<V: Copy> CollectCache<IgnoreMissingEntries> for CellMap<V> where
    HashMap<(i32, i32), V>: Entries<(i32, i32), V>,
 {
    fn from_entries(pairs: Vec<(GridIndex, V)>) -> (cache: Self) {
        Self::from_pairs(pairs)
    }
}

impl<V: Copy> CollectCache<InsertMissingEntries> for CellMap<V> where
    HashMap<(i32, i32), V>: Entries<(i32, i32), V>,
 {
    fn from_entries(pairs: Vec<(GridIndex, V)>) -> (cache: Self) {
        Self::from_pairs(pairs)
    }
}

/// The cell at one end of the rows of `column`: the near end where `far` is
/// false, the far end where it is true.
pub open spec fn edge_cell(rows: int, column: int, far: bool) -> GridIndex {
    GridIndex {
        q: ((if far {
            rows
        } else {
            -rows
        }) + row_shift(column)) as i32,
        r: column as i32,
    }
}

/// The end cells of the columns `from` to `to`, in that order.
pub open spec fn edge_cells(rows: int, from: int, to: int, far: bool) -> Seq<GridIndex> {
    Seq::new((to - from + 1) as nat, |k: int| edge_cell(rows, from + k, far))
}

/// What a path algorithm knows of the playing field: its size and what
/// stands on its cells.
#[derive(Clone, Copy)]
pub struct PathContext<'a> {
    columns: &'a HexGridColumns,
    rows: &'a HexGridRows,
    grid: &'a HexHashGrid,
}

impl<'a> PathContext<'a> {
    /// The count of columns.
    pub closed spec fn column_count(&self) -> int {
        self.columns.0 as int
    }

    /// The count of rows to either side.
    pub closed spec fn row_count(&self) -> int {
        self.rows.0 as int
    }

    /// What stands on each cell.
    pub closed spec fn entries(&self) -> Map<GridIndex, GridEntry> {
        self.grid@
    }

    /// Every row range of the region can be held in `i32`.
    pub open spec fn fits(&self) -> bool {
        region_fits(self.column_count(), self.row_count())
    }

    /// The region has a column, so that it has edges to walk.
    pub open spec fn has_edges(&self) -> bool {
        self.column_count() >= 0
    }

    /// Whether `a` lies in the region.
    pub open spec fn holds(&self, a: GridIndex) -> bool {
        in_region(a, self.column_count(), self.row_count())
    }

    /// Whether `a` is the first or the last cell of its column.
    pub open spec fn on_edge(&self, a: GridIndex) -> bool {
        a == edge_cell(self.row_count(), a.r as int, false) || a == edge_cell(
            self.row_count(),
            a.r as int,
            true,
        )
    }

    /// Whether a route may lead over `a`: it lies inside the region, off the
    /// edges where routes start and end, on a cell that is free for one.
    pub open spec fn pathable(&self, a: GridIndex) -> bool {
        &&& self.holds(a)
        &&& !self.on_edge(a)
        &&& self.entries().contains_key(a)
        &&& entry_can_be_path(self.entries()[a])
    }

    /// The state a search is given for the cell `c`, for a route from
    /// `start` to `end`.
    pub open spec fn state_of(&self, start: GridIndex, end: GridIndex, c: GridIndex) -> TileState {
        if self.pathable(c) || c == start || c == end {
            TileState::Useable
        } else {
            TileState::Blocked
        }
    }

    /// The cells on which routes start.
    pub open spec fn start_cells(&self) -> Seq<GridIndex> {
        edge_cells(
            self.row_count(),
            -outer_column(self.column_count()),
            outer_column(self.column_count()),
            false,
        )
    }

    /// The cells on which routes end.
    pub open spec fn end_cells(&self) -> Seq<GridIndex> {
        edge_cells(
            self.row_count(),
            -outer_column(self.column_count()),
            outer_column(self.column_count()),
            true,
        )
    }

    /// The grid has an entry for every cell on which a route may start or
    /// end.
    pub open spec fn edges_covered(&self) -> bool {
        &&& forall|i: int|
            0 <= i < self.start_cells().len() ==> self.entries().contains_key(
                #[trigger] self.start_cells()[i],
            )
        &&& forall|i: int|
            0 <= i < self.end_cells().len() ==> self.entries().contains_key(
                #[trigger] self.end_cells()[i],
            )
    }

    /// Whether nothing stands on `c`.
    pub open spec fn free(&self, c: GridIndex) -> bool {
        self.entries().contains_key(c) && self.entries()[c] == GridEntry::Empty
    }

    /// The tile states a search from `start` to `end` is given.
    pub open spec fn states(&self, start: GridIndex, end: GridIndex) -> Map<GridIndex, TileState> {
        Map::new(|c: GridIndex| self.holds(c), |c: GridIndex| self.state_of(start, end, c))
    }

    /// The context of a field of `rows` by `columns` with `grid` on it.
    pub fn from_args(
        rows: &'a HexGridRows,
        columns: &'a HexGridColumns,
        grid: &'a HexHashGrid,
    ) -> (context: Self)
        ensures
            context.row_count() == rows.0,
            context.column_count() == columns.0,
            context.entries() == grid@,
    {
        Self { rows, columns, grid }
    }

    /// The same field with another grid on it.
    pub fn with_grid<'b>(&'a self, grid: &'b HexHashGrid) -> (context: PathContext<'b>) where 'a: 'b
        ensures
            context.row_count() == self.row_count(),
            context.column_count() == self.column_count(),
            context.entries() == grid@,
    {
        PathContext { columns: self.columns, rows: self.rows, grid }
    }

    /// The first cell of every column: where routes start.
    pub fn iter_start_column(&self) -> (cells: ColumnIterator<'a>)
        requires
            self.fits(),
            self.has_edges(),
        ensures
            cells.wf(),
            !cells.done(),
            cells.remaining() == self.start_cells(),
    {
        ColumnIterator::from_context(self, false)
    }

    /// The last cell of every column: where routes end.
    pub fn iter_end_column(&self) -> (cells: ColumnIterator<'a>)
        requires
            self.fits(),
            self.has_edges(),
        ensures
            cells.wf(),
            !cells.done(),
            cells.remaining() == self.end_cells(),
    {
        ColumnIterator::from_context(self, true)
    }

    /// Every cell of the region, column by column.
    pub fn all(&self) -> (cells: Vec<GridIndex>)
        requires
            self.fits(),
        ensures
            forall|c: GridIndex| #[trigger] cells@.contains(c) <==> self.holds(c),
            forall|i: int, j: int|
                0 <= i < j < cells.len() ==> crate::grid::listed_before(
                    #[trigger] cells@[i],
                    #[trigger] cells@[j],
                ),
    {
        region_cells(self.columns, self.rows)
    }

    /// Whether a route may lead over `a`.
    pub fn can_be_path(&self, a: &GridIndex) -> (ok: bool)
        requires
            self.fits(),
        ensures
            ok == self.pathable(*a),
    {
        let range = self.columns.get_actual_column_count();
        if !range.contains(a.r) {
            return false;
        }
        let row_range = self.rows.get_actual_row_count(a.r);
        a.q != row_range.start && a.q != row_range.end && row_range.contains(a.q)
            && self.grid.can_be_path(a)
    }

    /// The cells of the region over which a route may lead, in the order in
    /// which the region lists them.
    pub fn all_pathable(&self) -> (cells: Vec<GridIndex>)
        requires
            self.fits(),
        ensures
            forall|c: GridIndex| #[trigger] cells@.contains(c) <==> self.pathable(c),
            forall|i: int, j: int|
                0 <= i < j < cells.len() ==> crate::grid::listed_before(
                    #[trigger] cells@[i],
                    #[trigger] cells@[j],
                ),
    {
        let every = self.all();
        let mut cells: Vec<GridIndex> = Vec::new();
        let mut i: usize = 0;
        while i < every.len()
            invariant
                i <= every.len(),
                self.fits(),
                forall|c: GridIndex| #[trigger] every@.contains(c) <==> self.holds(c),
                forall|a: int, b: int|
                    0 <= a < b < every.len() ==> crate::grid::listed_before(
                        #[trigger] every@[a],
                        #[trigger] every@[b],
                    ),
                forall|c: GridIndex|
                    #[trigger] cells@.contains(c) <==> every@.take(i as int).contains(c)
                        && self.pathable(c),
                forall|a: int, b: int|
                    0 <= a < b < cells.len() ==> crate::grid::listed_before(
                        #[trigger] cells@[a],
                        #[trigger] cells@[b],
                    ),
            decreases every.len() - i,
        {
            let c = every[i];
            let ghost before = cells@;
            if self.can_be_path(&c) {
                proof {
                    assert forall|a: int| 0 <= a < before.len() implies crate::grid::listed_before(
                        #[trigger] before[a],
                        c,
                    ) by {
                        assert(before.contains(before[a]));
                        assert(every@.take(i as int).contains(before[a]));
                        let w = choose|w: int|
                            0 <= w < every@.take(i as int).len() && every@.take(i as int)[w]
                                == before[a];
                        assert(crate::grid::listed_before(every@[w], every@[i as int]));
                    }
                    crate::grid::lemma_push_contains(before, c);
                }
                cells.push(c);
            }
            proof {
                assert forall|x: GridIndex|
                    #[trigger] cells@.contains(x) <==> every@.take(i + 1).contains(x)
                        && self.pathable(x) by {
                    lemma_take_next_contains(every@, i as int, x);
                    assert(before.contains(x) <==> every@.take(i as int).contains(x)
                        && self.pathable(x));
                }
            }
            i += 1;
        }
        proof {
            assert(every@.take(every.len() as int) =~= every@);
            assert forall|c: GridIndex| #[trigger] cells@.contains(c) <==> self.pathable(c) by {
                assert(every@.contains(c) <==> self.holds(c));
            }
        }
        cells
    }

    /// The tile states a search from `start` to `end` is given: every cell
    /// of the region, useable where a route may lead over it and at the two
    /// ends, blocked elsewhere.
    pub fn tile_state(&self, start: GridIndex, end: GridIndex) -> (states: CellMap<TileState>)
        requires
            self.fits(),
        ensures
            states@ == self.states(start, end),
    {
        let every = self.all();
        let mut states: CellMap<TileState> = CellMap::new();
        let mut i: usize = 0;
        while i < every.len()
            invariant
                i <= every.len(),
                self.fits(),
                forall|c: GridIndex| #[trigger] every@.contains(c) <==> self.holds(c),
                forall|c: GridIndex|
                    #[trigger] states@.contains_key(c) <==> every@.take(i as int).contains(c),
                forall|c: GridIndex|
                    states@.contains_key(c) ==> #[trigger] states@[c] == self.state_of(
                        start,
                        end,
                        c,
                    ),
            decreases every.len() - i,
        {
            let c = every[i];
            let state = if self.can_be_path(&c) || c == start || c == end {
                TileState::Useable
            } else {
                TileState::Blocked
            };
            let ghost before = states@;
            states.insert(&c, state);
            proof {
                assert(states@ == before.insert(c, state));
                assert forall|x: GridIndex|
                    #[trigger] states@.contains_key(x) <==> every@.take(i + 1).contains(x) by {
                    lemma_take_next_contains(every@, i as int, x);
                    assert(before.contains_key(x) <==> every@.take(i as int).contains(x));
                }
            }
            i += 1;
        }
        proof {
            assert(every@.take(every.len() as int) =~= every@);
            assert forall|c: GridIndex| #[trigger] states@.contains_key(c) <==> self.holds(c) by {
                assert(every@.contains(c) <==> self.holds(c));
            }
            assert(states@ =~= self.states(start, end));
        }
        states
    }

    /// Whether a route may start or end on `index`: nothing stands on it.
    pub fn can_be_path_ending(&self, index: GridIndex) -> (ok: bool)
        requires
            self.entries().contains_key(index),
        ensures
            ok == (self.entries()[index] == GridEntry::Empty),
    {
        match self.grid.entry(index) {
            Some(GridEntry::Empty) => true,
            _ => false,
        }
    }
}

/// Walks the first or the last cells of the columns of a region.
pub struct ColumnIterator<'a> {
    context: PathContext<'a>,
    cur: Option<GridIndex>,
    actual_end: i32,
    far: bool,
}

impl<'a> ColumnIterator<'a> {
    /// The walk stays within the columns of its region, on the end of the
    /// rows it was made for.
    pub closed spec fn wf(&self) -> bool {
        &&& self.context.fits()
        &&& self.context.has_edges()
        &&& self.actual_end == outer_column(self.context.column_count())
        &&& self.cur matches Some(c) ==> -outer_column(self.context.column_count()) <= c.r
            <= self.actual_end && c == edge_cell(self.context.row_count(), c.r as int, self.far)
    }

    /// The cells still to come.
    pub closed spec fn remaining(&self) -> Seq<GridIndex> {
        match self.cur {
            Some(c) => edge_cells(
                self.context.row_count(),
                c.r as int,
                self.actual_end as int,
                self.far,
            ),
            None => Seq::empty(),
        }
    }

    /// Whether the walk has come to its end.
    pub closed spec fn done(&self) -> bool {
        self.cur is None
    }

    fn edge(context: &PathContext<'a>, column: i32, far: bool) -> (cell: GridIndex)
        requires
            context.fits(),
            -outer_column(context.column_count()) <= column <= outer_column(context.column_count()),
        ensures
            cell == edge_cell(context.row_count(), column as int, far),
    {
        let along = context.rows.get_actual_row_count(column);
        if far {
            GridIndex { q: along.end, r: column }
        } else {
            GridIndex { q: along.start, r: column }
        }
    }

    fn from_context(context: &PathContext<'a>, far: bool) -> (cells: Self)
        requires
            context.fits(),
            context.has_edges(),
        ensures
            cells.wf(),
            !cells.done(),
            cells.remaining() == edge_cells(
                context.row_count(),
                -outer_column(context.column_count()),
                outer_column(context.column_count()),
                far,
            ),
    {
        let range = context.columns.get_actual_column_count();
        let first = Self::edge(context, range.start, far);
        Self { context: *context, cur: Some(first), actual_end: range.end, far }
    }

    /// How many cells are still to come, as a lower and an upper bound.
    pub fn size_hint(&self) -> (hint: (usize, Option<usize>))
        requires
            self.wf(),
        ensures
            self.done() <==> self.remaining().len() == 0,
            !self.done() ==> hint == (self.remaining().len() as usize, Some(
                self.remaining().len() as usize,
            )) && hint.0 == self.remaining().len(),
            self.done() ==> hint == (0usize, None::<usize>),
    {
        match self.cur {
            Some(c) => {
                let end = (self.actual_end - c.r) as usize + 1;
                (end, Some(end))
            },
            None => (0, None),
        }
    }

    /// The next cell, if there is one.
    pub fn next(&mut self) -> (cell: Option<GridIndex>)
        requires
            old(self).wf(),
        ensures
            final(self).wf(),
            cell == (if old(self).remaining().len() > 0 {
                Some(old(self).remaining()[0])
            } else {
                None
            }),
            final(self).remaining() == (if old(self).remaining().len() > 0 {
                old(self).remaining().drop_first()
            } else {
                old(self).remaining()
            }),
            final(self).done() <==> final(self).remaining().len() == 0,
    {
        let ret = self.cur;
        match self.cur {
            Some(n) => {
                if n.r >= self.actual_end {
                    self.cur = None;
                    assert(old(self).remaining().drop_first() =~= Seq::<GridIndex>::empty());
                } else {
                    let following = Self::edge(&self.context, n.r + 1, self.far);
                    self.cur = Some(following);
                    assert(old(self).remaining().drop_first() =~= self.remaining());
                }
            },
            None => {},
        }
        ret
    }

    /// The last of the cells still to come, if there is one.
    pub fn last(self) -> (cell: Option<GridIndex>)
        requires
            self.wf(),
        ensures
            cell == (if self.remaining().len() > 0 {
                Some(self.remaining().last())
            } else {
                None
            }),
    {
        let cells = self.collect();
        if cells.len() > 0 {
            Some(cells[cells.len() - 1])
        } else {
            None
        }
    }

    /// The cells still to come, in order.
    pub fn collect(self) -> (cells: Vec<GridIndex>)
        requires
            self.wf(),
        ensures
            cells@ == self.remaining(),
    {
        let mut walk = self;
        let mut cells: Vec<GridIndex> = Vec::new();
        loop
            invariant
                walk.wf(),
                cells@ + walk.remaining() == self.remaining(),
                walk.done() ==> walk.remaining().len() == 0,
            decreases walk.remaining().len(),
        {
            let ghost rest = walk.remaining();
            match walk.next() {
                Some(c) => {
                    assert(cells@.push(c) + rest.drop_first() =~= cells@ + rest);
                    cells.push(c);
                },
                None => {
                    assert(cells@ + rest =~= cells@);
                    return cells;
                },
            }
        }
    }
}

/// The best distance found so far for each cell.
pub struct Distances {
    storage: CellMap<u32>,
}

impl Distances {
    /// The distance held for each cell that has one.
    pub closed spec fn view(&self) -> Map<GridIndex, u32> {
        self.storage@
    }

    /// Distances for no cell.
    pub fn new() -> (distances: Self)
        ensures
            distances@ == Map::<GridIndex, u32>::empty(),
    {
        Self { storage: CellMap::new() }
    }

    /// Records `distance` for `pos` where none is held yet or the one held
    /// is greater, and says whether it did.
    pub fn update(&mut self, pos: &GridIndex, distance: u32) -> (written: bool)
        ensures
            written == (!old(self)@.contains_key(*pos) || distance < old(self)@[*pos]),
            final(self)@ == (if written {
                old(self)@.insert(*pos, distance)
            } else {
                old(self)@
            }),
    {
        match self.storage.get(pos) {
            Some(d) => {
                if distance < d {
                    self.storage.insert(pos, distance);
                    true
                } else {
                    false
                }
            },
            None => {
                self.storage.insert(pos, distance);
                true
            },
        }
    }

    /// Forgets every distance.
    pub fn clear(&mut self)
        ensures
            final(self)@ == Map::<GridIndex, u32>::empty(),
    {
        self.storage.clear();
    }

    /// The distance held for `pos`.
    pub fn get(&self, pos: &GridIndex) -> (found: Option<u32>)
        ensures
            found == (if self@.contains_key(*pos) {
                Some(self@[*pos])
            } else {
                None
            }),
    {
        self.storage.get(pos)
    }
}

impl Default for Distances {
    fn default() -> (distances: Self)
        ensures
            distances@ == Map::<GridIndex, u32>::empty(),
    {
        Self::new()
    }
}

} // verus!
