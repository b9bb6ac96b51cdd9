//! Routes across the grid: the path type and the algorithms that produce one.

pub mod chiseled;
pub mod context;
pub mod dijkstra;
pub mod random;
pub mod random_selected;
pub mod resolver;
pub mod steps;

use vstd::prelude::*;

use crate::grid::GridIndex;
use context::{
    lemma_collected_entries, lemma_collected_has, CellMap, DistanceCache, PathContext,
};
use dijkstra::is_seeded;
use random::RandomSelector;

verus! {

/// What a path engine asks of the cells it works on: they can be copied,
/// compared, and stepped by an offset.
pub trait Indexable: Copy {
    /// The cell reached from `self` by the offset `d`, where there is one.
    spec fn step(self, d: Self) -> Option<Self>;

    fn checked_step(self, d: Self) -> (reached: Option<Self>)
        ensures
            reached == self.step(d),
    ;

    fn same(&self, other: &Self) -> (equal: bool)
        ensures
            equal == (*self == *other),
    ;
}

impl Indexable for GridIndex {
    open spec fn step(self, d: Self) -> Option<Self> {
        self.offset_by(d)
    }

    fn checked_step(self, d: Self) -> (reached: Option<Self>) {
        self.checked_add(d)
    }

    fn same(&self, other: &Self) -> (equal: bool) {
        self.q == other.q && self.r == other.r
    }
}

/// The element that follows the first occurrence of `i` in `nodes`, if `i`
/// occurs and is not last.
pub open spec fn next_after<I>(nodes: Seq<I>, i: I) -> Option<I>
    decreases nodes.len(),
{
    if nodes.len() == 0 {
        None
    } else if nodes[0] == i {
        if nodes.len() > 1 {
            Some(nodes[1])
        } else {
            None
        }
    } else {
        next_after(nodes.drop_first(), i)
    }
}

/// An ordered route from `start` to `end`.
#[derive(Debug)]
pub struct HexPath<I: Indexable> {
    pub nodes: Vec<I>,
    pub start: I,
    pub end: I,
}

impl<I: Indexable> HexPath<I> {
    /// The node that follows `i` on the path.
    pub fn get_next(&self, i: I) -> (next: Option<I>)
        ensures
            next == next_after(self.nodes@, i),
    {
        let mut e: usize = 0;
        assert(self.nodes@.skip(0) =~= self.nodes@);
        while e < self.nodes.len()
            invariant
                e <= self.nodes.len(),
                next_after(self.nodes@, i) == next_after(self.nodes@.skip(e as int), i),
            decreases self.nodes.len() - e,
        {
            let ghost rest = self.nodes@.skip(e as int);
            assert(rest[0] == self.nodes@[e as int]);
            if self.nodes[e].same(&i) {
                if e + 1 < self.nodes.len() {
                    assert(rest[1] == self.nodes@[e + 1]);
                    return Some(self.nodes[e + 1]);
                } else {
                    return None;
                }
            }
            assert(rest.drop_first() =~= self.nodes@.skip(e + 1));
            e += 1;
        }
        None
    }
}

/// Whether `path` leads from `start` to `end`.
pub open spec fn joins(path: HexPath<GridIndex>, start: GridIndex, end: GridIndex) -> bool {
    &&& path.start == start
    &&& path.end == end
    &&& path.nodes@.len() > 0
    &&& path.nodes@.first() == start
    &&& path.nodes@.last() == end
}

/// The cells of `path`, where there is one.
pub open spec fn nodes_of<I: Indexable>(path: Option<HexPath<I>>) -> Option<Seq<I>> {
    match path {
        Some(p) => Some(p.nodes@),
        None => None,
    }
}

/// Picks the cell on which a route starts.
pub trait StartSelector {
    /// Whether `start` is an answer this selector may give on `context`.
    spec fn picks_start(&self, context: PathContext<'_>, start: Option<GridIndex>) -> bool;

    fn get_start(&self, context: PathContext<'_>) -> (start: Option<GridIndex>)
        requires
            context.fits(),
            context.has_edges(),
            context.edges_covered(),
        ensures
            self.picks_start(context, start),
            start matches Some(c) ==> context.start_cells().contains(c) && context.free(c),
    ;
}

/// Picks the cell on which a route ends.
pub trait EndSelector {
    /// Whether `end` is an answer this selector may give on `context`.
    spec fn picks_end(&self, context: PathContext<'_>, end: Option<GridIndex>) -> bool;

    fn get_end(&self, context: PathContext<'_>) -> (end: Option<GridIndex>)
        requires
            context.fits(),
            context.has_edges(),
            context.edges_covered(),
        ensures
            self.picks_end(context, end),
            end matches Some(c) ==> context.end_cells().contains(c) && context.free(c),
    ;
}

/// Finds one route between two given cells.
pub trait SinglePathAlgorithm {
    /// Whether `path` is an answer this algorithm may give for a route from
    /// `start` to `end` on `context`.
    spec fn finds(
        &self,
        context: PathContext<'_>,
        start: GridIndex,
        end: GridIndex,
        path: Option<HexPath<GridIndex>>,
    ) -> bool;

    fn calculate_path(&self, context: PathContext<'_>, start: GridIndex, end: GridIndex) -> (path:
        Option<HexPath<GridIndex>>)
        requires
            context.fits(),
        ensures
            self.finds(context, start, end, path),
            path matches Some(p) ==> joins(p, start, end),
    ;
}

/// Finds one route between two given cells, on distances that the caller
/// has seeded.
pub trait DistanceAwareSinglePathAlgorithm {
    /// Whether `path` is an answer this algorithm may give for a route from
    /// `start` to `end` on `context`, where it begins with the distances
    /// `seeds`.
    spec fn finds_on(
        &self,
        context: PathContext<'_>,
        seeds: Map<GridIndex, u32>,
        start: GridIndex,
        end: GridIndex,
        path: Option<HexPath<GridIndex>>,
    ) -> bool;

    fn calculate_path_distance_aware<D: DistanceCache<Access = GridIndex>>(
        &self,
        context: PathContext<'_>,
        distance_cache: D,
        start: GridIndex,
        end: GridIndex,
    ) -> (path: Option<HexPath<GridIndex>>)
        requires
            context.fits(),
            is_seeded(distance_cache.entries(), start),
        ensures
            self.finds_on(context, distance_cache.entries(), start, end, path),
            path matches Some(p) ==> joins(p, start, end),
    ;
}

/// The distances a search from `start` begins with where it is to run over
/// the cells over which a route may lead: zero at `start`, the sentinel at
/// every other such cell.
pub open spec fn pathable_seeds(context: PathContext<'_>, start: GridIndex) -> Map<GridIndex, u32> {
    Map::new(
        |c: GridIndex| context.pathable(c),
        |c: GridIndex|
            if c == start {
                0u32
            } else {
                u32::MAX
            },
    )
}

/// Seeds the distances of the cells over which a route may lead.
pub fn seed_pathable(context: PathContext<'_>, start: GridIndex) -> (distances: CellMap<u32>)
    requires
        context.fits(),
    ensures
        distances@ == pathable_seeds(context, start),
{
    let cells = context.all_pathable();
    let mut pairs: Vec<(GridIndex, u32)> = Vec::new();
    let mut i: usize = 0;
    while i < cells.len()
        invariant
            i <= cells.len(),
            pairs.len() == i,
            forall|j: int|
                0 <= j < i ==> #[trigger] pairs@[j] == (
                    cells@[j],
                    if cells@[j] == start {
                        0u32
                    } else {
                        u32::MAX
                    },
                ),
        decreases cells.len() - i,
    {
        let a = cells[i];
        let d: u32 = if a == start {
            0
        } else {
            u32::MAX
        };
        pairs.push((a, d));
        i += 1;
    }
    let distances: CellMap<u32> = CellMap::from_pairs(pairs);
    proof {
        assert forall|c: GridIndex| distances@.contains_key(c) implies context.pathable(c)
            && #[trigger] distances@[c] == (if c == start {
            0u32
        } else {
            u32::MAX
        }) by {
            lemma_collected_entries(pairs@, c);
            let w = choose|w: int| 0 <= w < pairs@.len() && #[trigger] pairs@[w] == (c, distances@[c]);
            assert(cells@.contains(cells@[w]));
        }
        assert forall|c: GridIndex| context.pathable(c) implies distances@.contains_key(c) by {
            assert(cells@.contains(c));
            let w = choose|w: int| 0 <= w < cells.len() && cells@[w] == c;
            lemma_collected_has(pairs@, w);
        }
        assert forall|c: GridIndex| #[trigger]
            distances@.contains_key(c) <==> context.pathable(c) by {
            if distances@.contains_key(c) {
                assert(distances@[c] == (if c == start {
                    0u32
                } else {
                    u32::MAX
                }));
            }
        }
        assert(distances@ =~= pathable_seeds(context, start));
    }
    distances
}

impl<D: DistanceAwareSinglePathAlgorithm> SinglePathAlgorithm for D {
    /// What the distance-aware algorithm may give where it begins with the
    /// seeded distances of the cells over which a route may lead.
    open spec fn finds(
        &self,
        context: PathContext<'_>,
        start: GridIndex,
        end: GridIndex,
        path: Option<HexPath<GridIndex>>,
    ) -> bool {
        self.finds_on(context, pathable_seeds(context, start), start, end, path)
    }

    /// Seeds the distances of the cells over which a route may lead, and
    /// hands them to the distance-aware algorithm.
    fn calculate_path(&self, context: PathContext<'_>, start: GridIndex, end: GridIndex) -> (path:
        Option<HexPath<GridIndex>>) {
        let distances = seed_pathable(context, start);
        self.calculate_path_distance_aware(context, distances, start, end)
    }
}

/// Finds one route across the field.
pub trait SinglePathFinder<S: StartSelector, E: EndSelector, A: SinglePathAlgorithm> {
    fn get_path(&self, context: PathContext<'_>) -> (path: Option<HexPath<GridIndex>>)
        requires
            context.fits(),
            context.has_edges(),
            context.edges_covered(),
        ensures
            path matches Some(p) ==> {
                &&& joins(p, p.start, p.end)
                &&& context.start_cells().contains(p.start)
                &&& context.free(p.start)
                &&& context.end_cells().contains(p.end)
                &&& context.free(p.end)
            },
    ;
}

/// Picks both ends with its selectors and joins them with its algorithm.
pub struct DefaultSinglePathFinder<S: StartSelector, E: EndSelector, A: SinglePathAlgorithm> {
    s: S,
    e: E,
    a: A,
}

impl<S: StartSelector, E: EndSelector, A: SinglePathAlgorithm> DefaultSinglePathFinder<S, E, A> {
    /// The selector that picks where the route starts.
    pub closed spec fn start_selector(&self) -> S {
        self.s
    }

    /// The selector that picks where the route ends.
    pub closed spec fn end_selector(&self) -> E {
        self.e
    }

    /// The algorithm that joins the two ends.
    pub closed spec fn algorithm(&self) -> A {
        self.a
    }

    /// Whether `path` is what the finder gives where its selectors have
    /// picked `start` and `end`: what its algorithm may give for the two
    /// cells where both were picked, and nothing where one was not.
    pub open spec fn joins_picks(
        &self,
        context: PathContext<'_>,
        start: Option<GridIndex>,
        end: Option<GridIndex>,
        path: Option<HexPath<GridIndex>>,
    ) -> bool {
        &&& self.start_selector().picks_start(context, start)
        &&& self.end_selector().picks_end(context, end)
        &&& match (start, end) {
            (Some(s), Some(e)) => self.algorithm().finds(context, s, e, path),
            _ => path is None,
        }
    }
}

impl<A: SinglePathAlgorithm> DefaultSinglePathFinder<RandomSelector, RandomSelector, A> {
    /// A finder that picks both ends at random and joins them with `algo`.
    pub fn new(algo: A) -> (finder: Self)
        ensures
            finder.start_selector() == RandomSelector,
            finder.end_selector() == RandomSelector,
            finder.algorithm() == algo,
    {
        Self { s: RandomSelector, e: RandomSelector, a: algo }
    }
}

impl<S: StartSelector, E: EndSelector, A: SinglePathAlgorithm> SinglePathFinder<
    S,
    E,
    A,
> for DefaultSinglePathFinder<S, E, A> {
    /// Lets the selectors pick the two ends and the algorithm join them:
    /// the path is what the algorithm gives for the cells picked, and there
    /// is none where either selector picked none.
    fn get_path(&self, context: PathContext<'_>) -> (path: Option<HexPath<GridIndex>>)
        ensures
            exists|start: Option<GridIndex>, end: Option<GridIndex>| #[trigger]
                self.joins_picks(context, start, end, path),
    {
        let start = self.s.get_start(context);
        let end = self.e.get_end(context);
        let path = match (start, end) {
            (Some(s), Some(e)) => self.a.calculate_path(context, s, e),
            _ => None,
        };
        assert(self.joins_picks(context, start, end, path));
        path
    }
}

} // verus!
