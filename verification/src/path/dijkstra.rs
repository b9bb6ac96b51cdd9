//! Single-source shortest paths over caches of distances, predecessors and
//! tile states.

use rand::rngs::ThreadRng;
use vstd::prelude::*;

use super::context::{
    collected, is_least_entry, Cache, CacheUpdateResult, CollectCache, DistanceCache,
    IgnoreMissingEntries, InsertMissingEntries,
};
use super::resolver::{
    lemma_resolved_no_duplicates, lemma_walk_back_bound_suffices, lemma_walk_back_more_fuel,
    resolved_nodes,
    walk_back, Resolver,
};
use super::context::{CellMap, PathContext};
use super::resolver::ShortesPathResolver;
use super::{nodes_of, DistanceAwareSinglePathAlgorithm, HexPath, Indexable};
use crate::grid::{GridDirections, GridIndex};
use crate::store::choose_position;

verus! {

/// Whether a cell may be traversed.
#[derive(Debug, Clone, Copy, Hash, PartialEq, Eq, PartialOrd, Ord, Structural)]
pub enum TileState {
    Blocked,
    Useable,
}

/// The numbers a distance is measured in.
pub trait DistanceValue: Copy {
    /// The value that stands for "not reached".
    spec fn max_value() -> Self;

    spec fn zero_value() -> Self;

    spec fn one_value() -> Self;

    fn max() -> (m: Self)
        ensures
            m == Self::max_value(),
    ;

    fn zero() -> (z: Self)
        ensures
            z == Self::zero_value(),
    ;

    fn one() -> (o: Self)
        ensures
            o == Self::one_value(),
    ;
}

impl DistanceValue for u32 {
    open spec fn max_value() -> Self {
        u32::MAX
    }

    open spec fn zero_value() -> Self {
        0
    }

    open spec fn one_value() -> Self {
        1
    }

    fn max() -> (m: Self) {
        u32::MAX
    }

    fn zero() -> (z: Self) {
        0
    }

    fn one() -> (o: Self) {
        1
    }
}

/// The length of the step between two neighbouring cells.
pub trait DistanceFunction<I, O> {
    spec fn distance(&self, rhs: I, lhs: I) -> O;

    fn get_distance(&self, rhs: &I, lhs: &I) -> (d: O)
        ensures
            d == self.distance(*rhs, *lhs),
    ;
}

/// Every step has length one.
pub struct ConstOneDF;

impl<I, V: DistanceValue> DistanceFunction<I, V> for ConstOneDF {
    open spec fn distance(&self, rhs: I, lhs: I) -> V {
        V::one_value()
    }

    fn get_distance(&self, _rhs: &I, _lhs: &I) -> (d: V) {
        V::one()
    }
}

/// Whether the tile states bar the cell `c`. A cell without a state is not
/// barred.
pub open spec fn blocks<I>(states: Map<I, TileState>, c: I) -> bool {
    states.contains_key(c) && states[c] == TileState::Blocked
}

/// Whether the tile states hold `c` as useable.
pub open spec fn useable_in<I>(states: Map<I, TileState>, c: I) -> bool {
    states.contains_key(c) && states[c] == TileState::Useable
}

/// The distances a search from `start` begins with: an entry for every cell
/// that is not blocked, zero at `start` and the sentinel elsewhere.
pub open spec fn seeded<I>(states: Map<I, TileState>, start: I) -> Map<I, u32> {
    Map::new(
        |c: I| states.contains_key(c) && states[c] != TileState::Blocked,
        |c: I|
            if c == start {
                0u32
            } else {
                u32::MAX
            },
    )
}

/// Whether `distances` holds zero at `start` and the sentinel everywhere
/// else.
pub open spec fn is_seeded<I>(distances: Map<I, u32>, start: I) -> bool {
    forall|c: I|
        distances.contains_key(c) ==> #[trigger] distances[c] == (if c == start {
            0u32
        } else {
            u32::MAX
        })
}

/// What a search runs on: the cells that have a distance entry, the tile
/// states, the directions in which a cell has neighbours, and the measure of
/// a step.
#[verifier::reject_recursive_types(I)]
#[verifier::reject_recursive_types(DF)]
pub struct Field<I, DF> {
    pub cells: Set<I>,
    pub states: Map<I, TileState>,
    pub dirs: Seq<I>,
    pub df: DF,
}

impl<I: Indexable, DF: DistanceFunction<I, u32>> Field<I, DF> {
    /// Whether the search may go from `u` to `v` in one step: both are cells
    /// of the field, neither is blocked, and `v` lies in one of the
    /// directions from `u`.
    pub open spec fn is_step(self, u: I, v: I) -> bool {
        &&& self.cells.contains(u)
        &&& self.cells.contains(v)
        &&& !blocks(self.states, u)
        &&& !blocks(self.states, v)
        &&& exists|k: int| 0 <= k < self.dirs.len() && u.step(#[trigger] self.dirs[k]) == Some(v)
    }

    /// The length of the step from `u` to `v`.
    pub open spec fn cost(self, u: I, v: I) -> nat {
        self.df.distance(v, u) as nat
    }

    /// Whether `route` leads from `from` to `to` by steps of the field.
    pub open spec fn is_route(self, route: Seq<I>, from: I, to: I) -> bool {
        &&& route.len() >= 1
        &&& route.first() == from
        &&& route.last() == to
        &&& forall|i: int|
            0 <= i < route.len() - 1 ==> self.is_step(#[trigger] route[i], route[i + 1])
    }

    /// The summed length of the steps of `route`.
    pub open spec fn length(self, route: Seq<I>) -> nat
        decreases route.len(),
    {
        if route.len() <= 1 {
            0
        } else {
            self.length(route.drop_last()) + self.cost(route[route.len() - 2], route.last())
        }
    }

    /// Whether `nodes` is the answer to "a shortest route from `start` to
    /// `end`": some route shorter than the sentinel where there is one, and
    /// none where there is not.
    pub open spec fn is_shortest(self, start: I, end: I, nodes: Option<Seq<I>>) -> bool {
        &&& nodes is Some <==> exists|route: Seq<I>|
            self.is_route(route, start, end) && self.length(route) < u32::MAX
        &&& nodes matches Some(found) ==> {
            &&& self.is_route(found, start, end)
            &&& self.length(found) < u32::MAX
            &&& forall|route: Seq<I>|
                self.is_route(route, start, end) ==> self.length(found) <= self.length(route)
        }
    }

    /// Whether `pending` and `links` are what a finished search from
    /// `start` leaves in its caches. A distance is left pending only for a
    /// cell of the field that has no route, and it is the sentinel. A cell
    /// has a link only where it is not `start` and has a route, and the link
    /// names a cell one step before it. And the links resolve, for every
    /// cell, to a shortest route from `start`, or to none where there is no
    /// route.
    pub open spec fn is_searched(self, start: I, pending: Map<I, u32>, links: Map<I, I>) -> bool {
        &&& forall|c: I|
            #[trigger] pending.contains_key(c) ==> self.cells.contains(c) && pending[c] == u32::MAX
                && resolved_nodes(links, start, c) is None
        &&& forall|c: I|
            #[trigger] links.contains_key(c) ==> c != start && self.is_step(links[c], c)
                && resolved_nodes(links, start, c) is Some
        &&& forall|end: I| self.is_shortest(start, end, #[trigger] resolved_nodes(links, start, end))
    }
}

/// Where every step has length one, a route is as long as it has steps:
/// one less than it has cells.
pub proof fn lemma_unit_length<I: Indexable>(field: Field<I, ConstOneDF>, route: Seq<I>)
    requires
        route.len() >= 1,
    ensures
        field.length(route) == route.len() - 1,
    decreases route.len(),
{
    if route.len() > 1 {
        lemma_unit_length(field, route.drop_last());
    }
}

/// The bookkeeping of a search in progress: the distances still open, the
/// distances of the cells already settled with the order in which they were
/// settled, and the predecessor links written so far.
#[verifier::reject_recursive_types(I)]
struct Progress<I> {
    open: Map<I, u32>,
    settled: Map<I, u32>,
    rank: Map<I, nat>,
    count: nat,
    links: Map<I, I>,
}

impl<I: Indexable> Progress<I> {
    /// The distance currently known for `v`.
    spec fn label(self, v: I) -> int {
        if self.open.contains_key(v) {
            self.open[v] as int
        } else {
            self.settled[v] as int
        }
    }

    /// Every cell of the field is either open or settled, and each settled
    /// cell has its place in the order.
    spec fn covers<DF: DistanceFunction<I, u32>>(self, field: Field<I, DF>) -> bool {
        &&& forall|v: I|
            #![trigger field.cells.contains(v)]
            #![trigger self.open.contains_key(v)]
            #![trigger self.settled.contains_key(v)]
            field.cells.contains(v) <==> self.open.contains_key(v) || self.settled.contains_key(v)
        &&& forall|v: I|
            #![trigger self.open.contains_key(v)]
            #![trigger self.settled.contains_key(v)]
            !(self.open.contains_key(v) && self.settled.contains_key(v))
        &&& forall|v: I|
            #![trigger self.rank.contains_key(v)]
            #![trigger self.settled.contains_key(v)]
            self.settled.contains_key(v) <==> self.rank.contains_key(v)
        &&& forall|v: I| #[trigger] self.rank.contains_key(v) ==> self.rank[v] < self.count
        &&& self.settled.dom().finite()
    }

    /// The link of `v` leads to a settled cell one step before it, from
    /// which the distance of `v` was computed.
    spec fn linked_ok<DF: DistanceFunction<I, u32>>(
        self,
        field: Field<I, DF>,
        start: I,
        v: I,
    ) -> bool {
        let p = self.links[v];
        &&& field.cells.contains(v)
        &&& v != start
        &&& self.label(v) < u32::MAX
        &&& self.settled.contains_key(p)
        &&& self.settled[p] < u32::MAX
        &&& field.is_step(p, v)
        &&& self.label(v) == self.settled[p] + field.cost(p, v)
        &&& self.rank[p] < (if self.settled.contains_key(v) {
            self.rank[v]
        } else {
            self.count
        })
    }

    /// Every step out of the settled cell `u` has been tried.
    spec fn relaxed_from<DF: DistanceFunction<I, u32>>(
        self,
        field: Field<I, DF>,
        u: I,
    ) -> bool {
        forall|v: I| #[trigger] field.is_step(u, v) ==> self.label(v) <= self.settled[u] + field.cost(u, v)
    }

    /// The step out of `u` in the `k`-th direction has been tried.
    spec fn relaxed_dir<DF: DistanceFunction<I, u32>>(
        self,
        field: Field<I, DF>,
        u: I,
        k: int,
    ) -> bool {
        match u.step(field.dirs[k]) {
            Some(v) => field.cells.contains(v) && !blocks(field.states, v) ==> self.label(v)
                <= self.settled[u] + field.cost(u, v),
            None => true,
        }
    }

    /// What holds of a search between two of its actions. `busy` is the
    /// settled cell whose steps are being tried, with the number of
    /// directions already tried.
    spec fn inv<DF: DistanceFunction<I, u32>>(
        self,
        field: Field<I, DF>,
        start: I,
        busy: Option<I>,
        upto: int,
    ) -> bool {
        &&& self.covers(field)
        &&& field.cells.contains(start) ==> self.label(start) == 0
        &&& forall|v: I| #[trigger] self.links.contains_key(v) ==> self.linked_ok(field, start, v)
        &&& forall|v: I|
            #[trigger] field.cells.contains(v) && self.label(v) < u32::MAX ==> v == start
                || self.links.contains_key(v)
        &&& forall|u: I, v: I|
            #[trigger] self.settled.contains_key(u) && #[trigger] self.open.contains_key(v)
                ==> self.settled[u] <= self.open[v]
        &&& forall|u: I|
            #[trigger] self.settled.contains_key(u) && busy != Some(u) && self.settled[u]
                < u32::MAX ==> self.relaxed_from(field, u)
        &&& busy matches Some(u) ==> {
            &&& self.settled.contains_key(u)
            &&& field.cells.contains(u)
            &&& !blocks(field.states, u)
            &&& self.settled[u] < u32::MAX
            &&& forall|w: I| #[trigger] self.settled.contains_key(w) ==> self.settled[w] <= self.settled[u]
            &&& forall|k: int| 0 <= k < upto ==> #[trigger] self.relaxed_dir(field, u, k)
        }
    }

    /// No open cell has a distance below the sentinel.
    spec fn exhausted(self) -> bool {
        forall|v: I| self.open.contains_key(v) ==> #[trigger] self.open[v] == u32::MAX
    }

    /// The bookkeeping after the open cell `min` has been settled.
    spec fn settle(self, min: I) -> Progress<I> {
        Progress {
            open: self.open.remove(min),
            settled: self.settled.insert(min, self.open[min]),
            rank: self.rank.insert(min, self.count),
            count: self.count + 1,
            links: self.links,
        }
    }

    /// The bookkeeping after the distance of the open cell `v` has been
    /// lowered to `total` by a step from `u`.
    spec fn lower(self, u: I, v: I, total: u32) -> Progress<I> {
        Progress {
            open: self.open.insert(v, total),
            settled: self.settled,
            rank: self.rank,
            count: self.count,
            links: self.links.insert(v, u),
        }
    }
}

/// Settling a least open cell keeps the search in order. Where the cell can
/// be stepped from, its steps are then to be tried.
proof fn lemma_settle<I: Indexable, DF: DistanceFunction<I, u32>>(
    st: Progress<I>,
    field: Field<I, DF>,
    start: I,
    min: I,
)
    requires
        st.inv(field, start, None, 0),
        st.open.contains_key(min),
        forall|other: I| st.open.contains_key(other) ==> st.open[min] <= #[trigger] st.open[other],
    ensures
        st.open[min] == u32::MAX ==> st.settle(min).inv(field, start, None, 0) && st.settle(
            min,
        ).exhausted(),
        blocks(field.states, min) ==> st.settle(min).inv(field, start, None, 0),
        st.open[min] < u32::MAX && !blocks(field.states, min) ==> st.settle(min).inv(
            field,
            start,
            Some(min),
            0,
        ),
{
    let after = st.settle(min);
    assert(after.covers(field));
    assert forall|v: I| field.cells.contains(v) || st.settled.contains_key(v) implies after.label(v)
        == st.label(v) by {}
    assert forall|v: I| #[trigger] after.links.contains_key(v) implies after.linked_ok(
        field,
        start,
        v,
    ) by {
        assert(st.linked_ok(field, start, v));
        let p = st.links[v];
        assert(p != min);
    }
    assert forall|u: I|
        #[trigger] after.settled.contains_key(u) && u != min && after.settled[u]
            < u32::MAX implies after.relaxed_from(field, u) by {
        assert(st.settled.contains_key(u));
        assert(st.relaxed_from(field, u));
        assert forall|v: I| #[trigger] field.is_step(u, v) implies after.label(v)
            <= after.settled[u] + field.cost(u, v) by {
            assert(field.cells.contains(v));
        }
    }
    if blocks(field.states, min) {
        assert forall|v: I| #[trigger] field.is_step(min, v) implies false by {}
        assert(after.relaxed_from(field, min));
    }
}

/// Lowering the distance of an open cell by a step from the busy cell keeps
/// the search in order, with that direction tried.
proof fn lemma_lower<I: Indexable, DF: DistanceFunction<I, u32>>(
    st: Progress<I>,
    field: Field<I, DF>,
    start: I,
    u: I,
    k: int,
    v: I,
    total: u32,
)
    requires
        st.inv(field, start, Some(u), k),
        0 <= k < field.dirs.len(),
        u.step(field.dirs[k]) == Some(v),
        !blocks(field.states, v),
        st.open.contains_key(v),
        total < st.open[v],
        total == st.settled[u] + field.cost(u, v),
    ensures
        st.lower(u, v, total).inv(field, start, Some(u), k + 1),
{
    let after = st.lower(u, v, total);
    assert(field.cells.contains(v));
    assert(field.is_step(u, v));
    assert(v != start);
    assert(after.covers(field));
    assert forall|w: I| w != v implies after.label(w) == st.label(w) by {}
    assert(after.label(v) == total);
    assert forall|w: I| #[trigger] after.links.contains_key(w) implies after.linked_ok(
        field,
        start,
        w,
    ) by {
        if w != v {
            assert(st.linked_ok(field, start, w));
        }
    }
    assert forall|a: I, b: I|
        #[trigger] after.settled.contains_key(a) && #[trigger] after.open.contains_key(
            b,
        ) implies after.settled[a] <= after.open[b] by {
        if b != v {
            assert(st.open.contains_key(b));
        }
    }
    assert forall|a: I|
        #[trigger] after.settled.contains_key(a) && a != u && after.settled[a]
            < u32::MAX implies after.relaxed_from(field, a) by {
        assert(st.relaxed_from(field, a));
        assert forall|w: I| #[trigger] field.is_step(a, w) implies after.label(w)
            <= after.settled[a] + field.cost(a, w) by {
            assert(after.label(w) <= st.label(w));
        }
    }
    assert forall|j: int| 0 <= j < k + 1 implies #[trigger] after.relaxed_dir(field, u, j) by {
        if j < k {
            assert(st.relaxed_dir(field, u, j));
            match u.step(field.dirs[j]) {
                Some(w) => {
                    assert(after.label(w) <= st.label(w));
                },
                None => {},
            }
        }
    }
}

/// A direction that needed no write counts as tried.
proof fn lemma_tried<I: Indexable, DF: DistanceFunction<I, u32>>(
    st: Progress<I>,
    field: Field<I, DF>,
    start: I,
    u: I,
    k: int,
)
    requires
        st.inv(field, start, Some(u), k),
        0 <= k < field.dirs.len(),
        st.relaxed_dir(field, u, k),
    ensures
        st.inv(field, start, Some(u), k + 1),
{
    assert forall|j: int| 0 <= j < k + 1 implies #[trigger] st.relaxed_dir(field, u, j) by {}
}

/// Once every direction of the busy cell is tried, the cell is done.
proof fn lemma_done<I: Indexable, DF: DistanceFunction<I, u32>>(
    st: Progress<I>,
    field: Field<I, DF>,
    start: I,
    u: I,
)
    requires
        st.inv(field, start, Some(u), field.dirs.len() as int),
    ensures
        st.inv(field, start, None, 0),
{
    assert forall|v: I| #[trigger] field.is_step(u, v) implies st.label(v) <= st.settled[u]
        + field.cost(u, v) by {
        let k = choose|k: int| 0 <= k < field.dirs.len() && u.step(#[trigger] field.dirs[k]) == Some(v);
        assert(st.relaxed_dir(field, u, k));
    }
    assert(st.relaxed_from(field, u));
}

/// Once the search is exhausted, no route to `v` is shorter than the
/// distance found for `v`.
proof fn lemma_lower_bound<I: Indexable, DF: DistanceFunction<I, u32>>(
    st: Progress<I>,
    field: Field<I, DF>,
    start: I,
    route: Seq<I>,
    v: I,
)
    requires
        st.inv(field, start, None, 0),
        st.exhausted(),
        field.is_route(route, start, v),
        route.len() >= 2,
        field.length(route) < u32::MAX,
    ensures
        field.cells.contains(v),
        st.label(v) <= field.length(route),
    decreases route.len(),
{
    let before = route.drop_last();
    let u = route[route.len() - 2];
    assert(field.is_step(route[route.len() - 2], route[route.len() - 2 + 1]));
    assert(before.last() == u);
    if before.len() == 1 {
        assert(u == start);
        assert(field.length(before) == 0);
    } else {
        assert forall|i: int| 0 <= i < before.len() - 1 implies field.is_step(
            #[trigger] before[i],
            before[i + 1],
        ) by {
            assert(field.is_step(route[i], route[i + 1]));
        }
        lemma_lower_bound(st, field, start, before, u);
    }
    assert(st.label(u) <= field.length(before));
    assert(st.settled.contains_key(u));
    assert(st.relaxed_from(field, u));
}

/// Reversing a walk that begins with `v` gives the reversed rest followed
/// by `v`.
proof fn lemma_reverse_cons<I>(v: I, rest: Seq<I>)
    ensures
        (seq![v] + rest).reverse() == rest.reverse().push(v),
{
    assert((seq![v] + rest).reverse() =~= rest.reverse().push(v));
}

/// The links of a settled cell with a distance below the sentinel lead back
/// to the start, along a route of exactly that distance.
proof fn lemma_chain<I: Indexable, DF: DistanceFunction<I, u32>>(
    st: Progress<I>,
    field: Field<I, DF>,
    start: I,
    v: I,
)
    requires
        st.inv(field, start, None, 0),
        st.settled.contains_key(v),
        st.settled[v] < u32::MAX,
    ensures
        walk_back(st.links, v, start, st.rank[v]) is Some,
        field.is_route(walk_back(st.links, v, start, st.rank[v])->0.reverse(), start, v),
        field.length(walk_back(st.links, v, start, st.rank[v])->0.reverse()) == st.settled[v],
    decreases st.rank[v],
{
    assert(field.cells.contains(v));
    if v == start {
        assert(seq![v].reverse() =~= seq![v]);
    } else {
        assert(st.links.contains_key(v));
        assert(st.linked_ok(field, start, v));
        let p = st.links[v];
        lemma_chain(st, field, start, p);
        lemma_walk_back_more_fuel(st.links, p, start, st.rank[p], (st.rank[v] - 1) as nat);
        let rest = walk_back(st.links, p, start, st.rank[p])->0;
        lemma_reverse_cons(v, rest);
        let before = rest.reverse();
        let route = before.push(v);
        assert(route.drop_last() =~= before);
        assert forall|i: int| 0 <= i < route.len() - 1 implies field.is_step(
            #[trigger] route[i],
            route[i + 1],
        ) by {
            if i < before.len() - 1 {
                assert(field.is_step(before[i], before[i + 1]));
            }
        }
    }
}

/// When the search is exhausted, the links resolve to a shortest route to
/// every cell that has one, and to none for every other cell.
proof fn lemma_settled_answer<I: Indexable, DF: DistanceFunction<I, u32>>(
    st: Progress<I>,
    field: Field<I, DF>,
    start: I,
    end: I,
)
    requires
        st.inv(field, start, None, 0),
        st.exhausted(),
        st.open.dom().finite(),
    ensures
        field.is_shortest(start, end, resolved_nodes(st.links, start, end)),
{
    let cells = st.open.dom().union(st.settled.dom());
    assert(st.links.dom().subset_of(cells)) by {
        assert forall|v: I| st.links.dom().contains(v) implies cells.contains(v) by {
            assert(st.links.contains_key(v));
            assert(st.linked_ok(field, start, v));
        }
    }
    vstd::set_lib::lemma_len_subset(st.links.dom(), cells);
    let found = resolved_nodes(st.links, start, end);
    if start == end {
        assert(seq![end].reverse() =~= seq![end]);
        assert(field.is_route(seq![end], start, end));
        assert(field.length(seq![end]) == 0);
    } else if st.settled.contains_key(end) && st.settled[end] < u32::MAX {
        lemma_chain(st, field, start, end);
        lemma_walk_back_bound_suffices(st.links, end, start, st.rank[end]);
        let route = found->0;
        assert(field.is_route(route, start, end));
        assert forall|other: Seq<I>| field.is_route(other, start, end) implies field.length(route)
            <= field.length(other) by {
            if field.length(other) < u32::MAX {
                lemma_lower_bound(st, field, start, other, end);
            }
        }
    } else {
        if st.links.contains_key(end) {
            assert(st.linked_ok(field, start, end));
        }
        assert(found is None);
        assert forall|other: Seq<I>|
            !(field.is_route(other, start, end) && field.length(other) < u32::MAX) by {
            if field.is_route(other, start, end) && field.length(other) < u32::MAX {
                lemma_lower_bound(st, field, start, other, end);
            }
        }
    }
}

/// When the search is exhausted, its caches are those of a finished search.
proof fn lemma_searched<I: Indexable, DF: DistanceFunction<I, u32>>(
    st: Progress<I>,
    field: Field<I, DF>,
    start: I,
)
    requires
        st.inv(field, start, None, 0),
        st.exhausted(),
        st.open.dom().finite(),
    ensures
        field.is_searched(start, st.open, st.links),
{
    let cells = st.open.dom().union(st.settled.dom());
    assert(st.links.dom().subset_of(cells)) by {
        assert forall|v: I| st.links.dom().contains(v) implies cells.contains(v) by {
            assert(st.links.contains_key(v));
            assert(st.linked_ok(field, start, v));
        }
    }
    vstd::set_lib::lemma_len_subset(st.links.dom(), cells);
    assert forall|c: I| #[trigger] st.open.contains_key(c) implies field.cells.contains(c)
        && st.open[c] == u32::MAX && resolved_nodes(st.links, start, c) is None by {
        assert(st.open[c] == u32::MAX);
        if st.links.contains_key(c) {
            assert(st.linked_ok(field, start, c));
        }
    }
    assert forall|c: I| #[trigger] st.links.contains_key(c) implies c != start && field.is_step(
        st.links[c],
        c,
    ) && resolved_nodes(st.links, start, c) is Some by {
        assert(st.linked_ok(field, start, c));
        assert(st.settled.contains_key(c));
        lemma_chain(st, field, start, c);
        lemma_walk_back_bound_suffices(st.links, c, start, st.rank[c]);
    }
    assert forall|end: I|
        field.is_shortest(start, end, #[trigger] resolved_nodes(st.links, start, end)) by {
        lemma_settled_answer(st, field, start, end);
    }
}

/// A read-only view of which cells are blocked.
pub trait TileStateCache<Index: Indexable> {
    /// The state of every cell that has one.
    spec fn states(&self) -> Map<Index, TileState>;

    /// A useable cell picked at random, or `None` where no cell is useable.
    fn get_random_unoccupied(&self, rng: &mut ThreadRng) -> (cell: Option<Index>)
        ensures
            cell is None <==> forall|c: Index| !useable_in(self.states(), c),
            cell matches Some(c) ==> useable_in(self.states(), c),
    ;

    fn is_blocked(&self, access: &Index) -> (blocked: bool)
        ensures
            blocked == blocks(self.states(), *access),
    ;

    /// The distances a search from `start` begins with.
    fn get_initial_distances<
        D: DistanceCache<Access = Index> + CollectCache<IgnoreMissingEntries>,
    >(&self, start: &Index) -> (distances: D)
        ensures
            distances.entries() == seeded(self.states(), *start),
    ;
}

impl<
    Index: Indexable,
    C: Cache<InsertMissingEntries, Access = Index, Output = TileState>,
> TileStateCache<Index> for C {
    open spec fn states(&self) -> Map<Index, TileState> {
        self.entries()
    }

    fn get_random_unoccupied(&self, rng: &mut ThreadRng) -> (cell: Option<Index>) {
        let keys = self.keys();
        let mut useable: Vec<Index> = Vec::new();
        let mut i: usize = 0;
        while i < keys.len()
            invariant
                i <= keys.len(),
                forall|k: Index| keys@.contains(k) <==> self.entries().contains_key(k),
                forall|j: int|
                    0 <= j < useable.len() ==> useable_in(self.entries(), #[trigger] useable@[j]),
                forall|j: int|
                    0 <= j < i && useable_in(self.entries(), #[trigger] keys@[j])
                        ==> useable@.contains(keys@[j]),
            decreases keys.len() - i,
        {
            let k = keys[i];
            assert(keys@.contains(k));
            let ghost before = useable@;
            match self.get(&k) {
                Some(TileState::Useable) => {
                    useable.push(k);
                    assert(useable@.last() == k);
                },
                _ => {},
            }
            assert forall|j: int|
                0 <= j < i + 1 && useable_in(self.entries(), #[trigger] keys@[j]) implies useable@.contains(
                keys@[j],
            ) by {
                if j < i {
                    let w = choose|w: int| 0 <= w < before.len() && before[w] == keys@[j];
                    assert(useable@[w] == keys@[j]);
                }
            }
            i += 1;
        }
        match choose_position(useable.len(), rng) {
            Some(at) => {
                assert(useable_in(self.states(), useable@[at as int]));
                Some(useable[at])
            },
            None => {
                assert forall|c: Index| !useable_in(self.states(), c) by {
                    if useable_in(self.entries(), c) {
                        assert(keys@.contains(c));
                        let j = choose|j: int| 0 <= j < keys.len() && keys@[j] == c;
                        assert(useable@.contains(keys@[j]));
                    }
                }
                None
            },
        }
    }

    fn is_blocked(&self, access: &Index) -> (blocked: bool) {
        match self.get(access) {
            Some(TileState::Blocked) => true,
            _ => false,
        }
    }

    fn get_initial_distances<
        D: DistanceCache<Access = Index> + CollectCache<IgnoreMissingEntries>,
    >(&self, start: &Index) -> (distances: D) {
        let keys = self.keys();
        let mut pairs: Vec<(Index, u32)> = Vec::new();
        let mut i: usize = 0;
        while i < keys.len()
            invariant
                i <= keys.len(),
                keys@.no_duplicates(),
                forall|k: Index| keys@.contains(k) <==> self.entries().contains_key(k),
                collected(pairs@) == Map::new(
                    |c: Index|
                        keys@.take(i as int).contains(c) && self.entries()[c]
                            != TileState::Blocked,
                    |c: Index|
                        if c == *start {
                            0u32
                        } else {
                            u32::MAX
                        },
                ),
            decreases keys.len() - i,
        {
            let k = keys[i];
            assert(keys@.contains(k));
            let ghost before = pairs@;
            let ghost seen = keys@.take(i as int);
            assert(keys@.take(i + 1) =~= seen.push(k));
            assert forall|c: Index| keys@.take(i + 1).contains(c) <==> seen.contains(c) || c
                == k by {
                if seen.contains(c) {
                    let w = choose|w: int| 0 <= w < seen.len() && seen[w] == c;
                    assert(seen.push(k)[w] == c);
                }
                if c == k {
                    assert(seen.push(k)[i as int] == k);
                }
            }
            let ghost goal = Map::new(
                |c: Index|
                    keys@.take(i + 1).contains(c) && self.entries()[c] != TileState::Blocked,
                |c: Index|
                    if c == *start {
                        0u32
                    } else {
                        u32::MAX
                    },
            );
            if !self.is_blocked(&k) {
                let d: u32 = if k.same(start) {
                    0
                } else {
                    u32::MAX
                };
                pairs.push((k, d));
                assert(pairs@.drop_last() =~= before);
                assert(pairs@.last() == (k, d));
                assert(collected(pairs@) == collected(before).insert(k, d));
                assert(collected(before).insert(k, d) =~= goal);
            } else {
                assert(collected(before) =~= goal);
            }
            i += 1;
        }
        assert(keys@.take(keys.len() as int) =~= keys@);
        assert(collected(pairs@) =~= seeded(self.entries(), *start));
        D::from_entries(pairs)
    }
}

/// A view of the tile states that can be written to.
pub trait MutTileStateCache<Index: Indexable>: TileStateCache<Index> {
    fn set_is_blocked(&mut self, access: &Index)
        ensures
            final(self).states() == old(self).states().insert(*access, TileState::Blocked),
    ;

    fn set_state(&mut self, access: &Index, state: TileState)
        ensures
            final(self).states() == old(self).states().insert(*access, state),
    ;
}

impl<
    Index: Indexable,
    C: Cache<InsertMissingEntries, Access = Index, Output = TileState>,
> MutTileStateCache<Index> for C {
    fn set_is_blocked(&mut self, access: &Index) {
        self.update(access, TileState::Blocked, |_held: &TileState| -> (always: bool)
            ensures
                always,
            { true });
    }

    fn set_state(&mut self, access: &Index, state: TileState) {
        self.update(access, state, |_held: &TileState| -> (always: bool)
            ensures
                always,
            { true });
    }
}

/// Takes an entry with the least distance out of `distances`.
pub fn get_min<I: Indexable, D: DistanceCache<Access = I>>(distances: &mut D) -> (least: Option<
    (I, u32),
>)
    ensures
        old(distances).entries().dom().finite(),
        is_least_entry(old(distances).entries(), least),
        final(distances).entries() == (match least {
            Some((k, _)) => old(distances).entries().remove(k),
            None => old(distances).entries(),
        }),
{
    let min = distances.get_min();
    if let Some(m) = min {
        distances.remove(&m.0);
        Some(m)
    } else {
        None
    }
}

/// The shortest-path engine.
pub struct Dijkstra;

impl Dijkstra {
    /// Puts the caches, the resolver, the tile states and the measure of a
    /// step together for a run.
    pub fn create_data<
        'a,
        I: Indexable,
        DF: DistanceFunction<I, u32>,
        C: Cache<InsertMissingEntries, Access = I, Output = I>,
        D: DistanceCache<Access = I>,
        R: Resolver<I, InsertMissingEntries, C>,
        TS: TileStateCache<I>,
    >(
        &'a self,
        prevs: &'a mut C,
        distances: &'a mut D,
        resolver: &'a R,
        tile_state: &'a TS,
        distance_function: &'a DF,
    ) -> (data: DijkstraData<'a, I, DF, D, C, R, TS>)
        ensures
            data.pending() == old(distances).entries(),
            data.links() == old(prevs).entries(),
            data.states() == tile_state.states(),
            data.metric() == *distance_function,
    {
        DijkstraData { distances, prevs, resolver, tile_state, distance_function }
    }
}

/// The state of one run of the engine.
#[verifier::reject_recursive_types(I)]
#[verifier::reject_recursive_types(DF)]
#[verifier::reject_recursive_types(D)]
#[verifier::reject_recursive_types(C)]
#[verifier::reject_recursive_types(R)]
#[verifier::reject_recursive_types(TS)]
pub struct DijkstraData<
    'a,
    I: Indexable,
    DF: DistanceFunction<I, u32>,
    D: DistanceCache<Access = I>,
    C: Cache<InsertMissingEntries, Access = I, Output = I>,
    R: Resolver<I, InsertMissingEntries, C>,
    TS: TileStateCache<I>,
> {
    distances: &'a mut D,
    prevs: &'a mut C,
    resolver: &'a R,
    tile_state: &'a TS,
    distance_function: &'a DF,
}

impl<
    'a,
    I: Indexable,
    DF: DistanceFunction<I, u32>,
    D: DistanceCache<Access = I>,
    C: Cache<InsertMissingEntries, Access = I, Output = I>,
    R: Resolver<I, InsertMissingEntries, C>,
    TS: TileStateCache<I>,
> DijkstraData<'a, I, DF, D, C, R, TS> {
    /// The distances of the cells that are not settled yet.
    pub closed spec fn pending(&self) -> Map<I, u32> {
        self.distances.entries()
    }

    /// The predecessor links written so far.
    pub closed spec fn links(&self) -> Map<I, I> {
        self.prevs.entries()
    }

    /// The tile states the run reads.
    pub closed spec fn states(&self) -> Map<I, TileState> {
        self.tile_state.states()
    }

    /// The measure of a step.
    pub closed spec fn metric(&self) -> DF {
        *self.distance_function
    }

    /// What the run searches: the cells with a pending distance, under the
    /// tile states and the measure of the run, with neighbours in `dirs`.
    pub open spec fn field(&self, dirs: Seq<I>) -> Field<I, DF> {
        Field { cells: self.pending().dom(), states: self.states(), dirs, df: self.metric() }
    }

    /// Searches from `start` and resolves the route to `end`: a shortest
    /// route where `end` can be reached, `None` where it cannot. The caches
    /// are left as the search leaves them, and the route is what the links
    /// resolve to.
    pub fn run(&mut self, start: I, end: I, dirs: &Vec<I>) -> (path: Option<HexPath<I>>)
        requires
            is_seeded(old(self).pending(), start),
            old(self).links() =~= Map::<I, I>::empty(),
        ensures
            final(self).states() == old(self).states(),
            final(self).metric() == old(self).metric(),
            old(self).field(dirs@).is_searched(start, final(self).pending(), final(self).links()),
            nodes_of(path) == resolved_nodes(final(self).links(), start, end),
            old(self).field(dirs@).is_shortest(start, end, nodes_of(path)),
            path matches Some(p) ==> p.start == start && p.end == end && p.nodes@.no_duplicates(),
    {
        self.calcualte_distances(dirs, start, end);
        let path = self.resolver.resolve_path(self.prevs, start, end);
        proof {
            if path is Some {
                lemma_resolved_no_duplicates(self.links(), start, end);
            }
        }
        path
    }

    /// Settles the cells in the order of their distance from `start`, and
    /// writes for each cell it reaches the link to the cell it was reached
    /// from. Afterwards only cells without a route are left pending, only
    /// cells with a route have a link, each link is a step, and the links
    /// resolve, for every cell, to a shortest route from `start`.
    pub fn calcualte_distances(&mut self, dirs: &Vec<I>, start: I, _end: I)
        requires
            is_seeded(old(self).pending(), start),
            old(self).links() =~= Map::<I, I>::empty(),
        ensures
            final(self).states() == old(self).states(),
            final(self).metric() == old(self).metric(),
            old(self).field(dirs@).is_searched(start, final(self).pending(), final(self).links()),
    {
        let ghost field = self.field(dirs@);
        let ghost mut st = Progress {
            open: self.pending(),
            settled: Map::<I, u32>::empty(),
            rank: Map::<I, nat>::empty(),
            count: 0,
            links: self.links(),
        };
        loop
            invariant
                field == old(self).field(dirs@),
                st.open == self.distances.entries(),
                st.links == self.prevs.entries(),
                self.states() == field.states,
                self.metric() == field.df,
                dirs@ == field.dirs,
                st.inv(field, start, None, 0),
            ensures
                field == old(self).field(dirs@),
                st.open == self.distances.entries(),
                st.links == self.prevs.entries(),
                self.states() == field.states,
                self.metric() == field.df,
                st.inv(field, start, None, 0),
                st.exhausted(),
                st.open.dom().finite(),
            decreases self.distances.entries().dom().len(),
        {
            let least = get_min(&mut *self.distances);
            match least {
                None => {
                    proof {
                        assert(st.open.dom() =~= Set::<I>::empty());
                    }
                    break ;
                },
                Some((min, cur_d)) => {
                    proof {
                        lemma_settle(st, field, start, min);
                        st = st.settle(min);
                    }
                    if cur_d == u32::MAX {
                        proof {
                            lemma_searched(st, field, start);
                        }
                        return ;
                    }
                    if !self.can_be_path(&min) {
                        continue ;
                    }
                    let ghost open_cells = st.open.dom();
                    let mut k: usize = 0;
                    while k < dirs.len()
                        invariant
                            k <= dirs.len(),
                            field == old(self).field(dirs@),
                            st.open == self.distances.entries(),
                            st.links == self.prevs.entries(),
                            st.open.dom() == open_cells,
                            self.states() == field.states,
                            self.metric() == field.df,
                            dirs@ == field.dirs,
                            cur_d == st.settled[min],
                            st.inv(field, start, Some(min), k as int),
                        decreases dirs.len() - k,
                    {
                        let ghost at = k as int;
                        match min.checked_step(dirs[k]) {
                            None => {
                                proof {
                                    lemma_tried(st, field, start, min, at);
                                }
                            },
                            Some(neighbor) => {
                                let distance = self.distance_function.get_distance(
                                    &neighbor,
                                    &min,
                                );
                                if self.can_be_path(&neighbor) {
                                    match distance.checked_add(cur_d) {
                                        None => {
                                            proof {
                                                lemma_tried(st, field, start, min, at);
                                            }
                                        },
                                        Some(total) => {
                                            match self.distances.update_distance(&neighbor, total) {
                                                CacheUpdateResult::Updated => {
                                                    self.prevs.update(
                                                        &neighbor,
                                                        min,
                                                        |held: &I| -> (differs: bool)
                                                            ensures
                                                                differs == !(min == *held),
                                                            { !held.same(&min) });
                                                    proof {
                                                        lemma_lower(
                                                            st,
                                                            field,
                                                            start,
                                                            min,
                                                            at,
                                                            neighbor,
                                                            total,
                                                        );
                                                        st = st.lower(min, neighbor, total);
                                                        assert(st.links =~= self.prevs.entries());
                                                        assert(st.open.dom() =~= open_cells);
                                                    }
                                                },
                                                _ => {
                                                    proof {
                                                        lemma_tried(st, field, start, min, at);
                                                    }
                                                },
                                            }
                                        },
                                    }
                                } else {
                                    proof {
                                        lemma_tried(st, field, start, min, at);
                                    }
                                }
                            },
                        }
                        k += 1;
                    }
                    proof {
                        lemma_done(st, field, start, min);
                    }
                },
            }
        }
        proof {
            lemma_searched(st, field, start);
        }
    }

    fn can_be_path(&self, access: &I) -> (open: bool)
        ensures
            open == !blocks(self.states(), *access),
    {
        !self.tile_state.is_blocked(access)
    }
}

impl DistanceAwareSinglePathAlgorithm for Dijkstra {
    /// A route from `start` to `end` with the fewest steps, over the cells
    /// that have a seeded distance and under the tile states of the
    /// context; none where there is no route.
    open spec fn finds_on(
        &self,
        context: PathContext<'_>,
        seeds: Map<GridIndex, u32>,
        start: GridIndex,
        end: GridIndex,
        path: Option<HexPath<GridIndex>>,
    ) -> bool {
        &&& (Field {
            cells: seeds.dom(),
            states: context.states(start, end),
            dirs: GridDirections::offsets(),
            df: ConstOneDF,
        }).is_shortest(start, end, nodes_of(path))
        &&& path matches Some(p) ==> p.start == start && p.end == end
    }

    fn calculate_path_distance_aware<D: DistanceCache<Access = GridIndex>>(
        &self,
        context: PathContext<'_>,
        distances: D,
        start: GridIndex,
        end: GridIndex,
    ) -> (path: Option<HexPath<GridIndex>>) {
        let mut distances = distances;
        let mut prevs: CellMap<GridIndex> = CellMap::new();
        let ts = context.tile_state(start, end);
        let resolver = ShortesPathResolver;
        let measure = ConstOneDF;
        let dirs = GridDirections::all_offsets();
        let ghost seeds = distances.entries();
        let mut data = self.create_data(&mut prevs, &mut distances, &resolver, &ts, &measure);
        let ghost field = data.field(dirs@);
        let path = data.run(start, end, &dirs);
        proof {
            assert(field.cells == seeds.dom());
            assert(field == (Field {
                cells: seeds.dom(),
                states: context.states(start, end),
                dirs: GridDirections::offsets(),
                df: ConstOneDF,
            }));
            if path is Some {
                assert(field.is_route(path->0.nodes@, start, end));
            }
        }
        path
    }
}

} // verus!
