//! Routes by chiselling: cells are taken away for as long as the ends stay
//! joined.

use vstd::prelude::*;

use super::context::PathContext;
use super::dijkstra::{ConstOneDF, Dijkstra, Field};
use super::{pathable_seeds, seed_pathable, DistanceAwareSinglePathAlgorithm, HexPath};
use crate::grid::{GridDirections, GridIndex, HexHashGrid};

verus! {

/// Takes cells away from the field at random.
pub struct Chiseled;

/// Whether the cells of `path` still join its ends, where a route may lead
/// only over cells that `path` holds. The ends of a path are entered in the
/// grid as its ends, over which no route leads; so the answer is yes
/// exactly where the two ends are one cell.
pub fn is_valid_path(path: &HexPath<GridIndex>, context: PathContext<'_>) -> (valid: bool)
    requires
        context.fits(),
    ensures
        valid == (path.start == path.end),
{
    let dijkstra = Dijkstra;
    let grid = HexHashGrid::from_path(path);
    let inner = context.with_grid(&grid);
    let distances = seed_pathable(inner, path.start);
    let found = dijkstra.calculate_path_distance_aware(inner, distances, path.start, path.end);
    proof {
        let field = Field {
            cells: pathable_seeds(inner, path.start).dom(),
            states: inner.states(path.start, path.end),
            dirs: GridDirections::offsets(),
            df: ConstOneDF,
        };
        if path.start == path.end {
            assert(field.is_route(seq![path.start], path.start, path.end));
            assert(field.length(seq![path.start]) == 0);
        } else {
            assert(!inner.pathable(path.start));
            assert forall|route: Seq<GridIndex>|
                !(#[trigger] field.is_route(route, path.start, path.end)) by {
                if field.is_route(route, path.start, path.end) {
                    assert(field.is_step(route[0int], route[0int + 1]));
                }
            }
        }
    }
    found.is_some()
}

impl Chiseled {
    /// One round of chiselling: `taken` has been taken out of `path`, and is
    /// put back at its end unless what is left still joins `start` and
    /// `end`.
    pub fn chisel(
        &self,
        context: PathContext<'_>,
        start: GridIndex,
        end: GridIndex,
        path: &mut Vec<GridIndex>,
        taken: GridIndex,
    )
        requires
            context.fits(),
        ensures
            final(path)@ == (if start == end {
                old(path)@
            } else {
                old(path)@.push(taken)
            }),
    {
        let mut nodes: Vec<GridIndex> = Vec::new();
        let mut i: usize = 0;
        while i < path.len()
            invariant
                i <= path.len(),
                path@ == old(path)@,
                nodes@ == path@.take(i as int),
            decreases path.len() - i,
        {
            nodes.push(path[i]);
            assert(path@.take(i + 1) =~= path@.take(i as int).push(path@[i as int]));
            i += 1;
        }
        let hex_path = HexPath { end, start, nodes };
        if !is_valid_path(&hex_path, context) {
            path.push(taken);
        }
    }

    /// What chiselling comes to once every cell has been tried: the cells
    /// that are left, where they join the ends.
    pub fn finish(
        &self,
        context: PathContext<'_>,
        start: GridIndex,
        end: GridIndex,
        path: Vec<GridIndex>,
    ) -> (found: Option<HexPath<GridIndex>>)
        requires
            context.fits(),
        ensures
            found is Some <==> start == end,
            found matches Some(p) ==> p.nodes@ == path@ && p.start == start && p.end == end,
    {
        let hex_path = HexPath { nodes: path, start, end };
        if is_valid_path(&hex_path, context) {
            Some(hex_path)
        } else {
            None
        }
    }
}

} // verus!
