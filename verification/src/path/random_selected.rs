//! Routes that wander: a search forced through waypoints picked at random.

use rand::rngs::ThreadRng;
use vstd::prelude::*;

use super::context::{CellMap, PathContext};
use super::dijkstra::{
    blocks, seeded, useable_in, Dijkstra, DistanceFunction, Field, MutTileStateCache,
    TileState, TileStateCache,
};
use super::random::choose_cell;
use super::resolver::ShortesPathResolver;
use super::{joins, HexPath, SinglePathAlgorithm};
use crate::grid::{is_neighbour, GridDirections, GridIndex};
use crate::store::{random_between, thread_rng};

verus! {

/// A walk that goes from cell to cell at random.
pub struct TotalRandom;

impl TotalRandom {
    /// Where the walk may go from `c`: the neighbours of `c` over which a
    /// route may lead, but for `start`, which the walk has left.
    pub fn options(&self, context: PathContext<'_>, start: GridIndex, c: GridIndex) -> (cells: Vec<
        GridIndex,
    >)
        requires
            context.fits(),
        ensures
            forall|x: GridIndex|
                #[trigger] cells@.contains(x) <==> is_neighbour(c, x) && x != start
                    && context.pathable(x),
    {
        let offsets = GridDirections::all_offsets();
        let mut cells: Vec<GridIndex> = Vec::new();
        let mut k: usize = 0;
        while k < offsets.len()
            invariant
                k <= offsets.len(),
                offsets.len() == 6,
                offsets@ == GridDirections::offsets(),
                context.fits(),
                forall|x: GridIndex|
                    #[trigger] cells@.contains(x) <==> (exists|j: int|
                        0 <= j < k && c.offset_by(#[trigger] GridDirections::offsets()[j]) == Some(
                            x,
                        )) && x != start && context.pathable(x),
            decreases offsets.len() - k,
        {
            let ghost before = cells@;
            let ghost reached = c.offset_by(GridDirections::offsets()[k as int]);
            let mut added = false;
            match c.checked_add(offsets[k]) {
                Some(d) => {
                    if d != start && context.can_be_path(&d) {
                        proof {
                            crate::grid::lemma_push_contains(before, d);
                        }
                        cells.push(d);
                        added = true;
                    }
                },
                None => {},
            }
            proof {
                assert forall|x: GridIndex|
                    #[trigger] cells@.contains(x) <==> (exists|j: int|
                        0 <= j < k + 1 && c.offset_by(#[trigger] GridDirections::offsets()[j])
                            == Some(x)) && x != start && context.pathable(x) by {
                    let old_reach = exists|j: int|
                        0 <= j < k && c.offset_by(#[trigger] GridDirections::offsets()[j]) == Some(
                            x,
                        );
                    let new_reach = exists|j: int|
                        0 <= j < k + 1 && c.offset_by(#[trigger] GridDirections::offsets()[j])
                            == Some(x);
                    assert(before.contains(x) <==> old_reach && x != start && context.pathable(x));
                    assert(new_reach <==> old_reach || reached == Some(x)) by {
                        if new_reach {
                            let j = choose|j: int|
                                0 <= j < k + 1 && c.offset_by(
                                    #[trigger] GridDirections::offsets()[j],
                                ) == Some(x);
                            if j < k {
                                assert(old_reach);
                            }
                        }
                        if old_reach {
                            let j = choose|j: int|
                                0 <= j < k && c.offset_by(#[trigger] GridDirections::offsets()[j])
                                    == Some(x);
                            assert(0 <= j < k + 1);
                        }
                        if reached == Some(x) {
                            assert(0 <= k < k + 1);
                        }
                    }
                    if added {
                        assert(cells@.contains(x) <==> before.contains(x) || x == reached->0);
                    } else {
                        assert(cells@ == before);
                    }
                }
            }
            k += 1;
        }
        cells
    }

    /// One step of the walk from `c`: one of the cells it may go to, picked
    /// at random, or `None` where there is none.
    pub fn step(
        &self,
        context: PathContext<'_>,
        start: GridIndex,
        c: GridIndex,
        rng: &mut ThreadRng,
    ) -> (next: Option<GridIndex>)
        requires
            context.fits(),
        ensures
            next matches Some(x) ==> is_neighbour(c, x) && x != start && context.pathable(x),
            next is None <==> forall|x: GridIndex|
                !(#[trigger] is_neighbour(c, x) && x != start && context.pathable(x)),
    {
        let cells = self.options(context, start, c);
        let next = choose_cell(&cells, rng);
        proof {
            match next {
                Some(x) => {
                    assert(cells@.contains(x));
                },
                None => {
                    assert forall|x: GridIndex|
                        !(#[trigger] is_neighbour(c, x) && x != start && context.pathable(x)) by {
                        if is_neighbour(c, x) && x != start && context.pathable(x) {
                            assert(cells@.contains(x));
                        }
                    }
                },
            }
        }
        next
    }
}

/// How many attempts a generation makes before it gives up.
pub const RETRY_CEILING: u32 = 100;

/// The measure of a step on the playing field. The six neighbours of a cell
/// are all equally far from it, so every step measures the same: the size of
/// a tile.
pub struct WorldDistance {
    pub size: u32,
}

impl DistanceFunction<GridIndex, u32> for WorldDistance {
    open spec fn distance(&self, rhs: GridIndex, lhs: GridIndex) -> u32 {
        self.size
    }

    fn get_distance(&self, _rhs: &GridIndex, _lhs: &GridIndex) -> (d: u32) {
        self.size
    }
}

/// On the playing field a route is as long as it has steps, each of the
/// size of a tile.
pub proof fn lemma_world_length(field: Field<GridIndex, WorldDistance>, route: Seq<GridIndex>)
    requires
        route.len() >= 1,
    ensures
        field.length(route) == (route.len() - 1) * field.df.size,
    decreases route.len(),
{
    if route.len() > 1 {
        lemma_world_length(field, route.drop_last());
        let steps = route.len() - 2;
        let size = field.df.size as int;
        assert(field.cost(route[route.len() - 2], route.last()) == size);
        assert(field.length(route.drop_last()) == steps * size);
        assert(steps * size + size == (steps + 1) * size) by (nonlinear_arith);
    } else {
        assert(0 * (field.df.size as int) == 0);
    }
}

/// What a search from `start` runs on, under the tile states `states` and
/// with tiles of size `tile_size`: the cells that are not blocked, each with
/// its six neighbours.
pub open spec fn search_field(
    states: Map<GridIndex, TileState>,
    start: GridIndex,
    tile_size: u32,
) -> Field<GridIndex, WorldDistance> {
    Field {
        cells: seeded(states, start).dom(),
        states,
        dirs: GridDirections::offsets(),
        df: WorldDistance { size: tile_size },
    }
}

/// A shortest route from `start` to `end` over the cells that `tile_state`
/// does not block, or `None` where there is no route.
pub fn try_get_path<TS: TileStateCache<GridIndex>>(
    tile_state: &TS,
    dijkstra: &Dijkstra,
    start: GridIndex,
    end: GridIndex,
    tile_size: u32,
) -> (path: Option<HexPath<GridIndex>>)
    ensures
        search_field(tile_state.states(), start, tile_size).is_shortest(
            start,
            end,
            match path {
                Some(p) => Some(p.nodes@),
                None => None,
            },
        ),
        path matches Some(p) ==> joins(p, start, end) && p.nodes@.no_duplicates(),
{
    let mut distances: CellMap<u32> = tile_state.get_initial_distances(&start);
    let mut prevs: CellMap<GridIndex> = CellMap::new();
    let fun = WorldDistance { size: tile_size };
    let resolver = ShortesPathResolver;
    let dirs = GridDirections::all_offsets();
    let mut data = dijkstra.create_data(&mut prevs, &mut distances, &resolver, tile_state, &fun);
    let ghost field = data.field(dirs@);
    let path = data.run(start, end, &dirs);
    proof {
        assert(field == search_field(tile_state.states(), start, tile_size));
        if path is Some {
            assert(field.is_route(path->0.nodes@, start, end));
        }
    }
    path
}

/// The tile states `states` with every cell of `cells` blocked.
pub open spec fn blocked_over(states: Map<GridIndex, TileState>, cells: Seq<GridIndex>) -> Map<
    GridIndex,
    TileState,
> {
    Map::new(
        |c: GridIndex| states.contains_key(c),
        |c: GridIndex|
            if cells.contains(c) {
                TileState::Blocked
            } else {
                states[c]
            },
    )
}

/// What holds while a route is being stitched: `states` are the states
/// `first` the generation began with, with the cells of `path` blocked;
/// `path` leads from `start` by steps between neighbours over cells that
/// were useable, meets none twice, and ends next to `cursor`, which is
/// useable too and not on it.
spec fn stitched(
    first: Map<GridIndex, TileState>,
    states: Map<GridIndex, TileState>,
    path: Seq<GridIndex>,
    cursor: GridIndex,
    start: GridIndex,
) -> bool {
    &&& states == blocked_over(first, path)
    &&& path.no_duplicates()
    &&& forall|i: int| 0 <= i < path.len() ==> useable_in(first, #[trigger] path[i])
    &&& !path.contains(cursor)
    &&& forall|i: int| 0 <= i < path.len() - 1 ==> is_neighbour(#[trigger] path[i], path[i + 1])
    &&& if path.len() == 0 {
        cursor == start
    } else {
        path[0] == start && is_neighbour(path.last(), cursor) && useable_in(first, cursor)
    }
}

/// What a generated route is: it leads from `start` to `end` by steps
/// between neighbours, meets no cell twice, and runs over cells that the
/// states `first` hold as useable.
pub open spec fn is_stitched_route(
    first: Map<GridIndex, TileState>,
    path: HexPath<GridIndex>,
    start: GridIndex,
    end: GridIndex,
) -> bool {
    &&& joins(path, start, end)
    &&& path.nodes@.no_duplicates()
    &&& forall|i: int|
        0 <= i < path.nodes@.len() - 1 ==> is_neighbour(#[trigger] path.nodes@[i], path.nodes@[i + 1])
    &&& forall|i: int| 0 <= i < path.nodes@.len() ==> useable_in(first, #[trigger] path.nodes@[i])
}

/// A segment found from the cursor can be added to the stitched route.
proof fn lemma_extend(
    first: Map<GridIndex, TileState>,
    states: Map<GridIndex, TileState>,
    path: Seq<GridIndex>,
    cursor: GridIndex,
    start: GridIndex,
    segment: Seq<GridIndex>,
    target: GridIndex,
    tile_size: u32,
)
    requires
        stitched(first, states, path, cursor, start),
        search_field(states, cursor, tile_size).is_route(segment, cursor, target),
        segment.no_duplicates(),
    ensures
        stitched(
            first,
            blocked_over(states, segment.drop_last()),
            path + segment.drop_last(),
            target,
            start,
        ),
{
    let field = search_field(states, cursor, tile_size);
    let added = segment.drop_last();
    let longer = path + added;
    assert forall|i: int| 0 <= i < segment.len() && segment.len() > 1 implies states.contains_key(
        #[trigger] segment[i],
    ) && states[segment[i]] != TileState::Blocked && !path.contains(segment[i]) && useable_in(
        first,
        segment[i],
    ) by {
        if i < segment.len() - 1 {
            assert(field.is_step(segment[i], segment[i + 1]));
        } else {
            assert(field.is_step(segment[i - 1], segment[i - 1 + 1]));
        }
        assert(field.cells.contains(segment[i]));
    }
    assert forall|i: int| 0 <= i < longer.len() implies useable_in(first, #[trigger] longer[i]) by {
        if i >= path.len() {
            assert(longer[i] == segment[i - path.len()]);
        }
    }
    assert forall|i: int, j: int| 0 <= i < j < longer.len() implies longer[i] != longer[j] by {
        if j >= path.len() {
            assert(longer[j] == segment[j - path.len()]);
            if i >= path.len() {
                assert(longer[i] == segment[i - path.len()]);
            } else {
                assert(path.contains(longer[i]));
            }
        }
    }
    assert(!longer.contains(target)) by {
        if longer.contains(target) {
            let i = choose|i: int| 0 <= i < longer.len() && longer[i] == target;
            if i >= path.len() {
                assert(longer[i] == segment[i - path.len()]);
                assert(segment[segment.len() - 1] == target);
            } else {
                assert(path.contains(target));
                if segment.len() > 1 {
                    assert(!path.contains(segment[segment.len() - 1]));
                }
            }
        }
    }
    assert forall|i: int| 0 <= i < longer.len() - 1 implies is_neighbour(
        #[trigger] longer[i],
        longer[i + 1],
    ) by {
        if i + 1 < path.len() {
        } else if i + 1 == path.len() {
            assert(longer[i + 1] == segment[0]);
        } else {
            assert(longer[i] == segment[i - path.len()]);
            assert(longer[i + 1] == segment[i - path.len() + 1]);
            assert(field.is_step(segment[i - path.len()], segment[i - path.len() + 1]));
        }
    }
    if longer.len() > 0 {
        if added.len() > 0 {
            assert(longer.last() == segment[segment.len() - 2]);
            assert(field.is_step(segment[segment.len() - 2], segment[segment.len() - 2 + 1]));
            if path.len() == 0 {
                assert(longer[0] == segment[0]);
            }
        } else {
            assert(longer =~= path);
        }
    }
    assert(blocked_over(states, added) =~= blocked_over(first, longer)) by {
        assert forall|c: GridIndex| longer.contains(c) <==> path.contains(c) || added.contains(c) by {
            if path.contains(c) {
                let i = choose|i: int| 0 <= i < path.len() && path[i] == c;
                assert(longer[i] == c);
            }
            if added.contains(c) {
                let i = choose|i: int| 0 <= i < added.len() && added[i] == c;
                assert(longer[path.len() + i] == c);
            }
            if longer.contains(c) {
                let i = choose|i: int| 0 <= i < longer.len() && longer[i] == c;
                if i < path.len() {
                    assert(path[i] == c);
                } else {
                    assert(added[i - path.len()] == c);
                }
            }
        }
    }
}

/// Whether a route from `start` to `end` is owed whatever is picked: the
/// two are the only useable cells, and they are one cell or neighbours that
/// a step shorter than the sentinel joins. Every pick is then one of the
/// two, and no search can fail.
pub open spec fn route_owed(
    states: Map<GridIndex, TileState>,
    start: GridIndex,
    end: GridIndex,
    tile_size: u32,
) -> bool {
    &&& useable_in(states, start)
    &&& useable_in(states, end)
    &&& forall|c: GridIndex| #[trigger] useable_in(states, c) ==> c == start || c == end
    &&& start == end || (is_neighbour(start, end) && tile_size < u32::MAX)
}

/// How far a stitching has come where a route is owed: it has not left
/// `start`, or it has gone the one step to `end`.
spec fn owed_shape(path: Seq<GridIndex>, cursor: GridIndex, start: GridIndex, end: GridIndex) -> bool {
    ||| path =~= Seq::<GridIndex>::empty() && cursor == start
    ||| path =~= seq![start] && cursor == end && start != end
}

/// Where a route is owed, the search of a segment finds one, and the
/// stitching stays on its way.
proof fn lemma_owed_segment(
    first: Map<GridIndex, TileState>,
    path: Seq<GridIndex>,
    cursor: GridIndex,
    target: GridIndex,
    start: GridIndex,
    end: GridIndex,
    tile_size: u32,
    segment: Option<Seq<GridIndex>>,
)
    requires
        route_owed(first, start, end, tile_size),
        owed_shape(path, cursor, start, end),
        target == end || useable_in(blocked_over(first, path), target),
        search_field(blocked_over(first, path), cursor, tile_size).is_shortest(
            cursor,
            target,
            segment,
        ),
        segment matches Some(s) ==> s.no_duplicates(),
    ensures
        segment is Some,
        owed_shape(path + segment->0.drop_last(), target, start, end),
{
    let states = blocked_over(first, path);
    let field = search_field(states, cursor, tile_size);
    if path.len() > 0 {
        assert(path[0] == start);
        assert(path.contains(start));
    }
    if target != end {
        assert(useable_in(first, target));
        assert(!path.contains(target));
    }
    if cursor == target {
        assert(field.is_route(seq![cursor], cursor, target));
        assert(field.length(seq![cursor]) == 0);
        let s = segment->0;
        if s.len() > 1 {
            assert(s[0] == s[s.len() - 1]);
        }
        assert(path + s.drop_last() =~= path);
    } else {
        assert(path =~= Seq::<GridIndex>::empty());
        assert(states =~= first);
        assert(cursor == start && target == end);
        let direct = seq![start, end];
        let k = choose|k: int|
            0 <= k < 6 && start.offset_by(#[trigger] GridDirections::offsets()[k]) == Some(end);
        assert(field.is_step(start, end));
        assert(field.is_route(direct, start, end)) by {
            assert forall|i: int| 0 <= i < direct.len() - 1 implies field.is_step(
                #[trigger] direct[i],
                direct[i + 1],
            ) by {}
        }
        assert(direct.drop_last() =~= seq![start]);
        assert(field.length(direct.drop_last()) == 0);
        assert(field.length(direct) == tile_size);
        let s = segment->0;
        assert(s.len() >= 2);
        assert(field.is_step(s[0int], s[0int + 1]));
        if s.len() > 2 {
            assert(field.is_step(s[1int], s[1int + 1]));
            assert(field.cells.contains(s[1]));
            assert(useable_in(first, s[1]));
            assert(s[1] == s[0] || s[1] == s[s.len() - 1]);
        }
        assert(s.drop_last() =~= seq![start]);
        assert(path + s.drop_last() =~= seq![start]);
    }
}

/// Adds the cells of `segment` but its last to `path`, and blocks them.
fn block_segment(
    tile_state: &mut CellMap<TileState>,
    path: &mut Vec<GridIndex>,
    segment: &Vec<GridIndex>,
    target: GridIndex,
)
    requires
        segment.len() > 0,
        segment@.no_duplicates(),
        segment@.last() == target,
        forall|i: int|
            0 <= i < segment.len() - 1 ==> old(tile_state)@.contains_key(#[trigger] segment@[i]),
    ensures
        final(path)@ == old(path)@ + segment@.drop_last(),
        final(tile_state)@ == blocked_over(old(tile_state)@, segment@.drop_last()),
{
    let mut i: usize = 0;
    assert(segment@.take(0) =~= Seq::<GridIndex>::empty());
    assert(path@ + segment@.take(0) =~= path@);
    assert(tile_state@ =~= blocked_over(tile_state@, segment@.take(0)));
    while i < segment.len()
        invariant
            i <= segment.len(),
            segment.len() > 0,
            segment@.no_duplicates(),
            segment@.last() == target,
            forall|j: int|
                0 <= j < segment.len() - 1 ==> old(tile_state)@.contains_key(
                    #[trigger] segment@[j],
                ),
            i < segment.len() ==> path@ == old(path)@ + segment@.take(i as int),
            i < segment.len() ==> tile_state@ == blocked_over(
                old(tile_state)@,
                segment@.take(i as int),
            ),
            i == segment.len() ==> path@ == old(path)@ + segment@.drop_last(),
            i == segment.len() ==> tile_state@ == blocked_over(
                old(tile_state)@,
                segment@.drop_last(),
            ),
        decreases segment.len() - i,
    {
        let n = segment[i];
        if n != target {
            let ghost before = tile_state@;
            let ghost seen = segment@.take(i as int);
            tile_state.set_state(&n, TileState::Blocked);
            path.push(n);
            proof {
                assert(i < segment.len() - 1);
                assert(tile_state@ == before.insert(n, TileState::Blocked));
                assert(old(tile_state)@.contains_key(segment@[i as int]));
                assert(segment@.take(i + 1) =~= seen.push(n));
                assert(path@ =~= old(path)@ + segment@.take(i + 1));
                assert forall|c: GridIndex| tile_state@.contains_key(c) implies #[trigger] tile_state@[c]
                    == blocked_over(old(tile_state)@, segment@.take(i + 1))[c] by {
                    crate::grid::lemma_take_next_contains(segment@, i as int, c);
                }
                assert(tile_state@ =~= blocked_over(old(tile_state)@, segment@.take(i + 1)));
                if i + 1 == segment.len() {
                    assert(false);
                }
            }
        } else {
            proof {
                assert(i == segment.len() - 1) by {
                    if i < segment.len() - 1 {
                        assert(segment@[i as int] == segment@[segment.len() - 1]);
                    }
                }
                assert(segment@.take(i as int) =~= segment@.drop_last());
            }
        }
        i += 1;
    }
}

/// Sets every cell of `path` back to useable.
fn release(tile_state: &mut CellMap<TileState>, path: &Vec<GridIndex>, Ghost(first): Ghost<
    Map<GridIndex, TileState>,
>)
    requires
        old(tile_state)@ == blocked_over(first, path@),
        path@.no_duplicates(),
        forall|i: int| 0 <= i < path.len() ==> useable_in(first, #[trigger] path@[i]),
    ensures
        final(tile_state)@ == first,
{
    let mut i: usize = 0;
    assert(path@.skip(0) =~= path@);
    while i < path.len()
        invariant
            i <= path.len(),
            path@.no_duplicates(),
            forall|j: int| 0 <= j < path.len() ==> useable_in(first, #[trigger] path@[j]),
            tile_state@ == blocked_over(first, path@.skip(i as int)),
        decreases path.len() - i,
    {
        let p = path[i];
        let ghost before = tile_state@;
        tile_state.set_state(&p, TileState::Useable);
        proof {
            assert(tile_state@ == before.insert(p, TileState::Useable));
            assert(useable_in(first, path@[i as int]));
            let rest = path@.skip(i as int);
            let fewer = path@.skip(i + 1);
            assert forall|c: GridIndex| rest.contains(c) <==> fewer.contains(c) || c == p by {
                if rest.contains(c) {
                    let j = choose|j: int| 0 <= j < rest.len() && rest[j] == c;
                    if j > 0 {
                        assert(fewer[j - 1] == c);
                    }
                }
                if fewer.contains(c) {
                    let j = choose|j: int| 0 <= j < fewer.len() && fewer[j] == c;
                    assert(rest[j + 1] == c);
                }
                if c == p {
                    assert(rest[0] == p);
                }
            }
            assert forall|c: GridIndex| tile_state@.contains_key(c) implies #[trigger] tile_state@[c]
                == blocked_over(first, fewer)[c] by {
                if fewer.contains(p) {
                    let j = choose|j: int| 0 <= j < fewer.len() && fewer[j] == p;
                    assert(path@[i + 1 + j] == path@[i as int]);
                }
                assert(rest.contains(c) <==> fewer.contains(c) || c == p);
            }
            assert(tile_state@ =~= blocked_over(first, fewer)) by {
                assert forall|c: GridIndex|
                    tile_state@.contains_key(c) <==> blocked_over(first, fewer).contains_key(c) by {}
            }
        }
        i += 1;
    }
    proof {
        assert(path@.skip(path.len() as int) =~= Seq::<GridIndex>::empty());
        assert(tile_state@ =~= first);
    }
}

/// Whether `states` hold some cell as useable.
pub open spec fn has_useable(states: Map<GridIndex, TileState>) -> bool {
    exists|c: GridIndex| #[trigger] useable_in(states, c)
}

/// What one attempt at a stitching came to.
pub enum Attempt {
    /// The ends were joined by this route.
    Joined(HexPath<GridIndex>),
    /// A search found no route, and the blocking of the attempt is undone.
    Failed,
    /// No cell was useable when the first waypoint was to be picked.
    NoWaypoint,
}

/// What a generation came to: the route, if one was stitched, and how many
/// attempts failed on the way.
pub struct Stitching {
    pub path: Option<HexPath<GridIndex>>,
    pub failed: u32,
}

/// Stitches a route from shortest segments through one to three waypoints
/// picked at random.
pub struct RandomDijkstra {
    pub tile_size: u32,
}

impl RandomDijkstra {
    /// One segment of a stitching: searches from `cursor` to `target` over
    /// the cells that `tile_state` does not block. Where there is a route,
    /// the cells of a shortest one but its last are added to `path` and
    /// blocked, and the route is returned; where there is none, nothing
    /// changes.
    pub fn extend(
        &self,
        tile_state: &mut CellMap<TileState>,
        path: &mut Vec<GridIndex>,
        cursor: GridIndex,
        target: GridIndex,
    ) -> (segment: Option<Vec<GridIndex>>)
        ensures
            search_field(old(tile_state)@, cursor, self.tile_size).is_shortest(
                cursor,
                target,
                match segment {
                    Some(s) => Some(s@),
                    None => None,
                },
            ),
            segment matches Some(s) ==> s@.no_duplicates() && final(path)@ == old(path)@
                + s@.drop_last() && final(tile_state)@ == blocked_over(
                old(tile_state)@,
                s@.drop_last(),
            ),
            segment is None ==> final(path)@ == old(path)@ && final(tile_state)@ == old(
                tile_state,
            )@,
    {
        let dijkstra = Dijkstra;
        match try_get_path(tile_state, &dijkstra, cursor, target, self.tile_size) {
            Some(p) => {
                proof {
                    let field = search_field(tile_state@, cursor, self.tile_size);
                    assert(field.is_route(p.nodes@, cursor, target));
                    assert forall|j: int| 0 <= j < p.nodes.len() - 1 implies tile_state@.contains_key(
                        #[trigger] p.nodes@[j],
                    ) by {
                        assert(field.is_step(p.nodes@[j], p.nodes@[j + 1]));
                        assert(field.cells.contains(p.nodes@[j]));
                    }
                }
                block_segment(tile_state, path, &p.nodes, target);
                Some(p.nodes)
            },
            None => None,
        }
    }

    /// One attempt at a stitching, through `num_points` waypoints. Each
    /// waypoint is picked at random among the cells that are useable when
    /// its turn comes, and a search runs from one to the next and at last
    /// to `end`, blocking the cells it has used. The attempt fails where a
    /// search finds no route, and then undoes its blocking. Whatever is
    /// picked: a route that comes back is a stitched route over the states
    /// the attempt began with; there is no waypoint to pick exactly where
    /// no cell is useable; and where `start` and `end` are the only useable
    /// cells and are one cell or neighbours, the picks decide nothing and
    /// the ends are joined.
    pub fn attempt(
        &self,
        tile_state: &mut CellMap<TileState>,
        start: GridIndex,
        end: GridIndex,
        num_points: usize,
        rng: &mut ThreadRng,
    ) -> (outcome: Attempt)
        requires
            1 <= num_points <= 3,
        ensures
            outcome matches Attempt::Joined(p) ==> is_stitched_route(
                old(tile_state)@,
                p,
                start,
                end,
            ) && final(tile_state)@ == blocked_over(old(tile_state)@, p.nodes@.drop_last()),
            !(outcome is Joined) ==> final(tile_state)@ == old(tile_state)@,
            outcome is NoWaypoint <==> !has_useable(old(tile_state)@),
            route_owed(old(tile_state)@, start, end, self.tile_size) ==> outcome is Joined,
    {
        let ghost first = tile_state@;
        let mut path: Vec<GridIndex> = Vec::new();
        let mut c_start = start;
        let mut i: usize = 0;
        let mut connected = true;
        proof {
            assert(tile_state@ =~= blocked_over(first, path@));
        }
        while connected && i <= num_points
            invariant
                1 <= num_points <= 3,
                i <= num_points + 1,
                first == old(tile_state)@,
                !connected || i > 0 ==> has_useable(first),
                i > 0 ==> useable_in(first, c_start),
                stitched(first, tile_state@, path@, c_start, start),
                connected && i > num_points ==> c_start == end,
                route_owed(first, start, end, self.tile_size) ==> connected && owed_shape(
                    path@,
                    c_start,
                    start,
                    end,
                ),
            decreases
                    (if connected {
                        1int
                    } else {
                        0int
                    }),
                    num_points + 1 - i,
        {
            let c_end = if i == num_points {
                end
            } else {
                assert(tile_state.states() == tile_state@);
                match tile_state.get_random_unoccupied(rng) {
                    Some(c) => {
                        proof {
                            assert(useable_in(tile_state@, c));
                            assert(useable_in(first, c));
                        }
                        c
                    },
                    None => {
                        proof {
                            if path.len() > 0 {
                                assert(useable_in(tile_state@, c_start));
                            }
                            assert(path@ =~= Seq::<GridIndex>::empty());
                            assert(tile_state@ =~= first);
                            assert forall|c: GridIndex| !#[trigger] useable_in(first, c) by {}
                        }
                        return Attempt::NoWaypoint;
                    },
                }
            };
            let ghost states = tile_state@;
            let ghost so_far = path@;
            match self.extend(tile_state, &mut path, c_start, c_end) {
                Some(segment) => {
                    proof {
                        lemma_extend(
                            first,
                            states,
                            so_far,
                            c_start,
                            start,
                            segment@,
                            c_end,
                            self.tile_size,
                        );
                        if route_owed(first, start, end, self.tile_size) {
                            lemma_owed_segment(
                                first,
                                so_far,
                                c_start,
                                c_end,
                                start,
                                end,
                                self.tile_size,
                                Some(segment@),
                            );
                        }
                        if segment@.len() == 1 {
                            assert(c_start == c_end);
                        } else {
                            assert((so_far + segment@.drop_last()).len() > 0);
                        }
                    }
                    c_start = c_end;
                    i += 1;
                },
                None => {
                    proof {
                        if route_owed(first, start, end, self.tile_size) {
                            lemma_owed_segment(
                                first,
                                so_far,
                                c_start,
                                c_end,
                                start,
                                end,
                                self.tile_size,
                                None,
                            );
                        }
                    }
                    connected = false;
                },
            }
        }
        if connected {
            proof {
                let whole = path@.push(end);
                assert forall|a: int, b: int| 0 <= a < b < whole.len() implies whole[a]
                    != whole[b] by {
                    if b == path.len() {
                        assert(path@.contains(whole[a]));
                    }
                }
                assert(whole.drop_last() =~= path@);
            }
            path.push(end);
            return Attempt::Joined(HexPath { nodes: path, start, end });
        }
        release(tile_state, &path, Ghost(first));
        Attempt::Failed
    }

    /// Generates a route from `start` to `end`, in up to as many attempts
    /// as the ceiling allows. Each attempt picks the number of its
    /// waypoints, from one to three, and its waypoints anew. Whatever is
    /// picked: a route that comes back is a stitched route, found before
    /// the ceiling was reached; where no cell is useable, nothing is
    /// attempted and no route comes back; otherwise no route comes back
    /// only once as many attempts have failed as the ceiling allows. Where
    /// `start` and `end` are the only useable cells and are one cell or
    /// neighbours, the picks decide nothing: the first attempt joins them.
    pub fn stitch(&self, context: PathContext<'_>, start: GridIndex, end: GridIndex) -> (out:
        Stitching)
        requires
            context.fits(),
        ensures
            out.path matches Some(p) ==> is_stitched_route(
                context.states(start, end),
                p,
                start,
                end,
            ) && out.failed < RETRY_CEILING,
            out.path is None ==> out.failed == (if has_useable(context.states(start, end)) {
                RETRY_CEILING
            } else {
                0u32
            }),
            !has_useable(context.states(start, end)) ==> out.path is None,
            route_owed(context.states(start, end), start, end, self.tile_size) ==> out.path
                is Some && out.failed == 0,
    {
        let mut rng = thread_rng();
        let mut tile_state = context.tile_state(start, end);
        let ghost first = tile_state@;
        let mut failed: u32 = 0;
        loop
            invariant
                tile_state@ == first,
                first == context.states(start, end),
                failed < RETRY_CEILING,
                failed > 0 ==> has_useable(first),
                failed > 0 ==> !route_owed(first, start, end, self.tile_size),
            decreases RETRY_CEILING - failed,
        {
            let num_points = random_between(1, 3, &mut rng);
            match self.attempt(&mut tile_state, start, end, num_points, &mut rng) {
                Attempt::Joined(path) => {
                    return Stitching { path: Some(path), failed };
                },
                Attempt::NoWaypoint => {
                    return Stitching { path: None, failed };
                },
                Attempt::Failed => {
                    failed += 1;
                    if failed >= RETRY_CEILING {
                        return Stitching { path: None, failed };
                    }
                },
            }
        }
    }
}

impl SinglePathAlgorithm for RandomDijkstra {
    /// What a generation may give: a stitched route or none, as the picks
    /// fall; none where no cell is useable; and a route where one is owed.
    open spec fn finds(
        &self,
        context: PathContext<'_>,
        start: GridIndex,
        end: GridIndex,
        path: Option<HexPath<GridIndex>>,
    ) -> bool {
        &&& path matches Some(p) ==> is_stitched_route(context.states(start, end), p, start, end)
        &&& !has_useable(context.states(start, end)) ==> path is None
        &&& route_owed(context.states(start, end), start, end, self.tile_size) ==> path is Some
    }

    fn calculate_path(&self, context: PathContext<'_>, start: GridIndex, end: GridIndex) -> (path:
        Option<HexPath<GridIndex>>) {
        self.stitch(context, start, end).path
    }
}

} // verus!
