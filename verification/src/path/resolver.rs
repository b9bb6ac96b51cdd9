//! Rebuilding a route from predecessor links.

use vstd::prelude::*;

use super::context::{Cache, CacheBehaviour};
use super::{HexPath, Indexable};

verus! {

/// The cells met when following predecessor links from `cur` until `start`,
/// `cur` first, taking at most `fuel` links. `None` where the links end
/// before `start`, or `fuel` runs out first.
pub open spec fn walk_back<I>(prevs: Map<I, I>, cur: I, start: I, fuel: nat) -> Option<Seq<I>>
    decreases fuel,
{
    if cur == start {
        Some(seq![cur])
    } else if fuel == 0 || !prevs.contains_key(cur) {
        None
    } else {
        match walk_back(prevs, prevs[cur], start, (fuel - 1) as nat) {
            Some(rest) => Some(seq![cur] + rest),
            None => None,
        }
    }
}

/// The route from `start` to `end` that the predecessor links describe: the
/// walk back from `end`, bounded by the number of links there are, turned
/// round.
pub open spec fn resolved_nodes<I>(prevs: Map<I, I>, start: I, end: I) -> Option<Seq<I>> {
    match walk_back(prevs, end, start, prevs.dom().len()) {
        Some(back) => Some(back.reverse()),
        None => None,
    }
}

/// Whether `path` is what the predecessor links resolve to.
pub open spec fn resolves_to<I: Indexable>(
    prevs: Map<I, I>,
    start: I,
    end: I,
    path: Option<HexPath<I>>,
) -> bool {
    match resolved_nodes(prevs, start, end) {
        Some(nodes) => path is Some && path->0.nodes@ == nodes && path->0.start == start
            && path->0.end == end,
        None => path is None,
    }
}

/// More fuel does not change a walk that was completed.
pub proof fn lemma_walk_back_more_fuel<I>(prevs: Map<I, I>, cur: I, start: I, fuel: nat, more: nat)
    requires
        walk_back(prevs, cur, start, fuel) is Some,
        fuel <= more,
    ensures
        walk_back(prevs, cur, start, more) == walk_back(prevs, cur, start, fuel),
    decreases fuel,
{
    if cur != start {
        lemma_walk_back_more_fuel(
            prevs,
            prevs[cur],
            start,
            (fuel - 1) as nat,
            (more - 1) as nat,
        );
    }
}

/// Whether `chain` follows the links of `prevs` from its first cell to
/// `start`, which it meets at its end and not before.
pub open spec fn is_chain<I>(prevs: Map<I, I>, chain: Seq<I>, start: I) -> bool {
    &&& chain.len() >= 1
    &&& chain.last() == start
    &&& forall|i: int|
        0 <= i < chain.len() - 1 ==> #[trigger] chain[i] != start && prevs.contains_key(chain[i])
            && prevs[chain[i]] == chain[i + 1]
}

/// A completed walk is a chain, and takes one link per cell but the last.
pub proof fn lemma_walk_back_is_chain<I>(prevs: Map<I, I>, cur: I, start: I, fuel: nat)
    requires
        walk_back(prevs, cur, start, fuel) is Some,
    ensures
        is_chain(prevs, walk_back(prevs, cur, start, fuel)->0, start),
        walk_back(prevs, cur, start, fuel)->0[0] == cur,
        walk_back(prevs, cur, start, fuel)->0.len() <= fuel + 1,
        walk_back(
            prevs,
            cur,
            start,
            (walk_back(prevs, cur, start, fuel)->0.len() - 1) as nat,
        ) == walk_back(prevs, cur, start, fuel),
    decreases fuel,
{
    if cur != start {
        let next = prevs[cur];
        lemma_walk_back_is_chain(prevs, next, start, (fuel - 1) as nat);
        let rest = walk_back(prevs, next, start, (fuel - 1) as nat)->0;
        let chain = seq![cur] + rest;
        assert forall|i: int| 0 <= i < chain.len() - 1 implies #[trigger] chain[i] != start
            && prevs.contains_key(chain[i]) && prevs[chain[i]] == chain[i + 1] by {
            if i > 0 {
                assert(chain[i] == rest[i - 1]);
                assert(chain[i + 1] == rest[i]);
            }
        }
    }
}

/// Two positions of a chain that hold the same cell are followed by the
/// same cells.
proof fn lemma_chain_repeats<I>(prevs: Map<I, I>, chain: Seq<I>, start: I, i: int, j: int, m: int)
    requires
        is_chain(prevs, chain, start),
        0 <= i < j,
        0 <= m,
        j + m < chain.len(),
        chain[i] == chain[j],
    ensures
        chain[i + m] == chain[j + m],
    decreases m,
{
    if m > 0 {
        lemma_chain_repeats(prevs, chain, start, i, j, m - 1);
        assert(prevs[chain[i + m - 1]] == chain[i + m - 1 + 1]);
        assert(prevs[chain[j + m - 1]] == chain[j + m - 1 + 1]);
    }
}

/// A chain meets no cell twice.
pub proof fn lemma_chain_no_duplicates<I>(prevs: Map<I, I>, chain: Seq<I>, start: I)
    requires
        is_chain(prevs, chain, start),
    ensures
        chain.no_duplicates(),
{
    assert forall|i: int, j: int| 0 <= i < j < chain.len() implies chain[i] != chain[j] by {
        if chain[i] == chain[j] {
            let m = chain.len() - 1 - j;
            lemma_chain_repeats(prevs, chain, start, i, j, m);
            assert(chain[i + m] == start);
            assert(chain[i + m] != start);
        }
    }
}

/// A chain has no more links than `prevs` holds.
pub proof fn lemma_chain_is_short<I>(prevs: Map<I, I>, chain: Seq<I>, start: I)
    requires
        prevs.dom().finite(),
        is_chain(prevs, chain, start),
    ensures
        chain.len() - 1 <= prevs.dom().len(),
{
    lemma_chain_no_duplicates(prevs, chain, start);
    let body = chain.drop_last();
    assert(body.no_duplicates());
    body.unique_seq_to_set();
    assert(body.to_set().subset_of(prevs.dom())) by {
        assert forall|c: I| body.to_set().contains(c) implies prevs.dom().contains(c) by {
            let i = choose|i: int| 0 <= i < body.len() && body[i] == c;
            assert(chain[i] == c);
        }
    }
    vstd::set_lib::lemma_len_subset(body.to_set(), prevs.dom());
}

/// What the links resolve to meets no cell twice.
pub proof fn lemma_resolved_no_duplicates<I>(prevs: Map<I, I>, start: I, end: I)
    requires
        resolved_nodes(prevs, start, end) is Some,
    ensures
        resolved_nodes(prevs, start, end)->0.no_duplicates(),
{
    let fuel = prevs.dom().len();
    lemma_walk_back_is_chain(prevs, end, start, fuel);
    let back = walk_back(prevs, end, start, fuel)->0;
    lemma_chain_no_duplicates(prevs, back, start);
    let route = back.reverse();
    assert forall|i: int, j: int| 0 <= i < j < route.len() implies route[i] != route[j] by {
        assert(route[i] == back[back.len() - 1 - i]);
        assert(route[j] == back[back.len() - 1 - j]);
    }
}

/// The bound of the walk never cuts a walk short: whatever walk some amount
/// of fuel completes, the number of links held completes too.
pub proof fn lemma_walk_back_bound_suffices<I>(prevs: Map<I, I>, cur: I, start: I, fuel: nat)
    requires
        prevs.dom().finite(),
        walk_back(prevs, cur, start, fuel) is Some,
    ensures
        walk_back(prevs, cur, start, prevs.dom().len()) == walk_back(prevs, cur, start, fuel),
{
    lemma_walk_back_is_chain(prevs, cur, start, fuel);
    let chain = walk_back(prevs, cur, start, fuel)->0;
    lemma_chain_is_short(prevs, chain, start);
    lemma_walk_back_more_fuel(
        prevs,
        cur,
        start,
        (chain.len() - 1) as nat,
        prevs.dom().len(),
    );
}

/// Turns predecessor links into a route.
pub trait Resolver<I: Indexable, B: CacheBehaviour, C: Cache<B, Access = I, Output = I>> {
    fn resolve_path(&self, cache: &C, start: I, end: I) -> (path: Option<HexPath<I>>)
        ensures
            resolves_to(cache.entries(), start, end, path),
    ;
}

/// Follows the links back from the end until the start is met.
pub struct ShortesPathResolver;

impl<I: Indexable, B: CacheBehaviour, C: Cache<B, Access = I, Output = I>> Resolver<
    I,
    B,
    C,
> for ShortesPathResolver {
    fn resolve_path(&self, cache: &C, start: I, end: I) -> (path: Option<HexPath<I>>) {
        match get_shortest_path(cache, end, start) {
            Some(nodes) => Some(HexPath { nodes, start, end }),
            None => None,
        }
    }
}

fn reversed<I: Copy>(v: &Vec<I>) -> (r: Vec<I>)
    ensures
        r@ == v@.reverse(),
{
    let mut r: Vec<I> = Vec::new();
    let mut i: usize = v.len();
    while i > 0
        invariant
            i <= v.len(),
            r.len() == v.len() - i,
            forall|j: int| 0 <= j < r.len() ==> r@[j] == v@[v.len() - 1 - j],
        decreases i,
    {
        i -= 1;
        r.push(v[i]);
    }
    assert(r@ =~= v@.reverse());
    r
}

/// The cells from `start` to `end` along the predecessor links, or `None`
/// where the walk back from `end` does not meet `start` within as many links
/// as `prevs` holds.
pub fn get_shortest_path<I: Indexable, B: CacheBehaviour, C: Cache<B, Access = I, Output = I>>(
    prevs: &C,
    end: I,
    start: I,
) -> (nodes: Option<Vec<I>>)
    ensures
        match resolved_nodes(prevs.entries(), start, end) {
            Some(route) => nodes is Some && nodes->0@ == route,
            None => nodes is None,
        },
{
    let bound = prevs.len();
    let mut ret: Vec<I> = Vec::new();
    ret.push(end);
    let mut cur = end;
    let mut steps: usize = 0;
    let ghost links = prevs.entries();
    loop
        invariant
            links == prevs.entries(),
            bound == links.dom().len(),
            steps <= bound,
            ret.len() == steps + 1,
            ret@.last() == cur,
            walk_back(links, end, start, bound as nat) == (match walk_back(
                links,
                cur,
                start,
                (bound - steps) as nat,
            ) {
                Some(rest) => Some(ret@.drop_last() + rest),
                None => None,
            }),
        decreases bound - steps,
    {
        if cur.same(&start) {
            assert(ret@.drop_last() + seq![cur] =~= ret@);
            return Some(reversed(&ret));
        }
        if steps == bound {
            return None;
        }
        match prevs.get(&cur) {
            None => {
                return None;
            },
            Some(p) => {
                proof {
                    let inner = walk_back(links, p, start, (bound - steps - 1) as nat);
                    if inner is Some {
                        assert(ret@.drop_last() + (seq![cur] + inner->0) =~= ret@.push(
                            p,
                        ).drop_last() + inner->0);
                    }
                }
                ret.push(p);
                cur = p;
                steps += 1;
            },
        }
    }
}

} // verus!
