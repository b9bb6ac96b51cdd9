//! Picking at random: the ends of a route, and an element of a list.

use rand::rngs::ThreadRng;
use vstd::prelude::*;

use super::context::PathContext;
use super::{EndSelector, StartSelector};
use crate::grid::{lemma_push_contains, lemma_take_next_contains, GridIndex};
use crate::store::{choose_position, thread_rng};

verus! {

/// Picks each end of a route at random among the free cells of its edge.
#[derive(Debug, Default, Clone, Copy)]
pub struct RandomSelector;

/// The cells of `cells` on which nothing stands.
fn free_cells(context: &PathContext<'_>, cells: &Vec<GridIndex>) -> (free: Vec<GridIndex>)
    requires
        forall|i: int| 0 <= i < cells.len() ==> context.entries().contains_key(#[trigger] cells@[i]),
    ensures
        forall|c: GridIndex| #[trigger] free@.contains(c) <==> cells@.contains(c) && context.free(c),
{
    let mut free: Vec<GridIndex> = Vec::new();
    let mut i: usize = 0;
    while i < cells.len()
        invariant
            i <= cells.len(),
            forall|j: int|
                0 <= j < cells.len() ==> context.entries().contains_key(#[trigger] cells@[j]),
            forall|c: GridIndex|
                #[trigger] free@.contains(c) <==> cells@.take(i as int).contains(c)
                    && context.free(c),
        decreases cells.len() - i,
    {
        let c = cells[i];
        let ghost before = free@;
        assert(context.entries().contains_key(cells@[i as int]));
        if context.can_be_path_ending(c) {
            proof {
                lemma_push_contains(before, c);
            }
            free.push(c);
        }
        proof {
            assert forall|x: GridIndex|
                #[trigger] free@.contains(x) <==> cells@.take(i + 1).contains(x) && context.free(
                    x,
                ) by {
                lemma_take_next_contains(cells@, i as int, x);
                assert(before.contains(x) <==> cells@.take(i as int).contains(x) && context.free(
                    x,
                ));
            }
        }
        i += 1;
    }
    assert(cells@.take(cells.len() as int) =~= cells@);
    free
}

/// One of `cells`, picked at random; `None` exactly where there is none.
pub fn choose_cell(cells: &Vec<GridIndex>, rng: &mut ThreadRng) -> (cell: Option<GridIndex>)
    ensures
        cell is None <==> cells.len() == 0,
        cell matches Some(c) ==> cells@.contains(c),
{
    match choose_position(cells.len(), rng) {
        Some(at) => Some(cells[at]),
        None => None,
    }
}

impl StartSelector for RandomSelector {
    /// A free cell among those on which routes start, or none where none
    /// of them is free.
    open spec fn picks_start(&self, context: PathContext<'_>, start: Option<GridIndex>) -> bool {
        match start {
            Some(c) => context.start_cells().contains(c) && context.free(c),
            None => forall|c: GridIndex| context.start_cells().contains(c) ==> !context.free(c),
        }
    }

    fn get_start(&self, context: PathContext<'_>) -> (start: Option<GridIndex>) {
        let mut rng = thread_rng();
        let cells = context.iter_start_column().collect();
        let free = free_cells(&context, &cells);
        let start = choose_cell(&free, &mut rng);
        proof {
            match start {
                Some(c) => {
                    assert(free@.contains(c));
                    assert(context.start_cells().contains(c) && context.free(c));
                },
                None => {
                    assert forall|c: GridIndex| context.start_cells().contains(c) implies !context.free(
                        c,
                    ) by {
                        if context.free(c) {
                            assert(free@.contains(c));
                        }
                    }
                },
            }
        }
        start
    }
}

impl EndSelector for RandomSelector {
    /// A free cell among those on which routes end, or none where none of
    /// them is free.
    open spec fn picks_end(&self, context: PathContext<'_>, end: Option<GridIndex>) -> bool {
        match end {
            Some(c) => context.end_cells().contains(c) && context.free(c),
            None => forall|c: GridIndex| context.end_cells().contains(c) ==> !context.free(c),
        }
    }

    fn get_end(&self, context: PathContext<'_>) -> (end: Option<GridIndex>) {
        let mut rng = thread_rng();
        let cells = context.iter_end_column().collect();
        let free = free_cells(&context, &cells);
        let end = choose_cell(&free, &mut rng);
        proof {
            match end {
                Some(c) => {
                    assert(free@.contains(c));
                    assert(context.end_cells().contains(c) && context.free(c));
                },
                None => {
                    assert forall|c: GridIndex| context.end_cells().contains(c) implies !context.free(
                        c,
                    ) by {
                        if context.free(c) {
                            assert(free@.contains(c));
                        }
                    }
                },
            }
        }
        end
    }
}

/// Takes one element out of `vec` at random and returns it; `None`, and
/// `vec` as it was, where `vec` is empty.
pub fn choose_from_vec<T: Clone>(vec: &mut Vec<T>, rng: &mut ThreadRng) -> (taken: Option<T>)
    ensures
        taken is None <==> old(vec).len() == 0,
        taken is None ==> final(vec)@ == old(vec)@,
        taken matches Some(t) ==> exists|at: int|
            0 <= at < old(vec).len() && t == #[trigger] old(vec)@[at] && final(vec)@ == old(
                vec,
            )@.remove(at),
{
    match choose_position(vec.len(), rng) {
        Some(at) => {
            let t = vec.remove(at);
            assert(t == old(vec)@[at as int]);
            Some(t)
        },
        None => None,
    }
}

} // verus!
