use hex_paths::grid::{
    GridDirections, GridEntry, GridIndex, HexGridColumns, HexGridRows, HexHashGrid,
};
use hex_paths::path::context::{
    Cache, CacheUpdateResult, CellMap, DistanceCache, IgnoreMissingEntries, InsertMissingEntries,
    PathContext,
};
use hex_paths::path::dijkstra::{
    get_min, ConstOneDF, Dijkstra, DistanceFunction, DistanceValue, MutTileStateCache, TileState,
    TileStateCache,
};
use hex_paths::path::random_selected::{
    try_get_path, Attempt, RandomDijkstra, WorldDistance, RETRY_CEILING,
};
use hex_paths::path::resolver::{get_shortest_path, Resolver, ShortesPathResolver};
use hex_paths::path::{
    DistanceAwareSinglePathAlgorithm, HexPath, Indexable, SinglePathAlgorithm,
};

fn hex_column() -> HexGridColumns {
    HexGridColumns(15)
}

fn hex_rows() -> HexGridRows {
    HexGridRows(10)
}

fn create_test_data() -> HexHashGrid {
    HexHashGrid::from_rows_and_columns_with_init(&hex_column(), &hex_rows(), |_| {})
}

fn is_neighbour(a: GridIndex, b: GridIndex) -> bool {
    GridDirections::all_offsets().iter().any(|d| a.checked_add(*d) == Some(b))
}

fn hex_steps(a: GridIndex, b: GridIndex) -> usize {
    let dq = (a.q - b.q).abs();
    let dr = (a.r - b.r).abs();
    let ds = (a.q + a.r - b.q - b.r).abs();
    ((dq + dr + ds) / 2) as usize
}

fn assert_stitched(path: &HexPath<GridIndex>, start: GridIndex, end: GridIndex) {
    assert_eq!(path.start, start);
    assert_eq!(path.end, end);
    assert_eq!(path.nodes.first(), Some(&start));
    assert_eq!(path.nodes.last(), Some(&end));
    for pair in path.nodes.windows(2) {
        assert!(is_neighbour(pair[0], pair[1]));
    }
    for (i, a) in path.nodes.iter().enumerate() {
        for b in &path.nodes[i + 1..] {
            assert_ne!(a, b);
        }
    }
}

#[test]
fn random_dijkstra_should_work() {
    let dijkstra = RandomDijkstra { tile_size: 50 };
    let grid = create_test_data();
    let column = hex_column();
    let rows = hex_rows();
    let context = PathContext::from_args(&rows, &column, &grid);
    let start = GridIndex { q: -12, r: 4 };
    let end = GridIndex { q: 13, r: -5 };

    let path = dijkstra.calculate_path(context, start, end);
    assert!(path.is_some());
}

#[test]
fn dijkstra_data_should_work() {
    let dijkstra = Dijkstra;
    let grid = create_test_data();
    let column = hex_column();
    let rows = hex_rows();
    let context = PathContext::from_args(&rows, &column, &grid);

    let mut prevs = CellMap::<GridIndex>::new();
    let start = context.iter_start_column().next().unwrap();
    let end = context.iter_end_column().last().unwrap();

    let tile_state = context.tile_state(start, end);

    let mut distances = tile_state.get_initial_distances::<CellMap<u32>>(&start);
    let resolver = ShortesPathResolver;
    let mut data = dijkstra.create_data(
        &mut prevs,
        &mut distances,
        &resolver,
        &tile_state,
        &WorldDistance { size: 50 },
    );
    let dirs = GridDirections::all_offsets();
    let path = data.run(start, end, &dirs);
    assert!(path.is_some());
}

#[test]
fn shortest_route_has_as_many_steps_as_the_cells_are_apart() {
    let grid = create_test_data();
    let column = hex_column();
    let rows = hex_rows();
    let context = PathContext::from_args(&rows, &column, &grid);
    let pairs = [
        (GridIndex::new(-3, 0), GridIndex::new(4, 0)),
        (GridIndex::new(-3, 2), GridIndex::new(4, -3)),
        (GridIndex::new(0, 0), GridIndex::new(0, 1)),
        (GridIndex::new(2, -4), GridIndex::new(-5, 5)),
    ];
    for (start, end) in pairs {
        let tile_state = context.tile_state(start, end);
        let path = try_get_path(&tile_state, &Dijkstra, start, end, 50).unwrap();
        assert_stitched(&path, start, end);
        assert_eq!(path.nodes.len() - 1, hex_steps(start, end));
    }
}

#[test]
fn shortest_route_goes_round_what_is_blocked() {
    let columns = HexGridColumns(5);
    let rows = HexGridRows(3);
    let grid = HexHashGrid::from_rows_and_columns_with_init(&columns, &rows, |_| {});
    let context = PathContext::from_args(&rows, &columns, &grid);
    let start = GridIndex::new(-2, 0);
    let end = GridIndex::new(2, 0);
    let mut tile_state = context.tile_state(start, end);
    tile_state.set_is_blocked(&GridIndex::new(0, 0));
    let path = try_get_path(&tile_state, &Dijkstra, start, end, 1).unwrap();
    assert_stitched(&path, start, end);
    assert_eq!(path.nodes.len() - 1, 5);
    tile_state.set_state(&GridIndex::new(1, -1), TileState::Blocked);
    tile_state.set_state(&GridIndex::new(-1, 1), TileState::Blocked);
    let path = try_get_path(&tile_state, &Dijkstra, start, end, 1).unwrap();
    assert_stitched(&path, start, end);
    assert_eq!(path.nodes.len() - 1, 6);
    for n in &path.nodes {
        assert!(!tile_state.is_blocked(n));
    }
}

#[test]
fn walled_off_end_has_no_route() {
    let columns = HexGridColumns(5);
    let rows = HexGridRows(3);
    let grid = HexHashGrid::from_rows_and_columns_with_init(&columns, &rows, |_| {});
    let context = PathContext::from_args(&rows, &columns, &grid);
    let start = GridIndex::new(-2, 0);
    let end = GridIndex::new(1, 0);
    let mut tile_state = context.tile_state(start, end);
    for d in GridDirections::all_offsets() {
        tile_state.set_is_blocked(&(end + d));
    }
    assert!(try_get_path(&tile_state, &Dijkstra, start, end, 50).is_none());

    let mut prevs = CellMap::<GridIndex>::new();
    let mut distances = tile_state.get_initial_distances::<CellMap<u32>>(&start);
    let resolver = ShortesPathResolver;
    let one = ConstOneDF;
    let mut data = Dijkstra.create_data(&mut prevs, &mut distances, &resolver, &tile_state, &one);
    data.calcualte_distances(&GridDirections::all_offsets(), start, end);
    assert!(Cache::<InsertMissingEntries>::get(&prevs, &end).is_none());
    let resolved: Option<HexPath<GridIndex>> = Resolver::<
        GridIndex,
        InsertMissingEntries,
        CellMap<GridIndex>,
    >::resolve_path(&resolver, &prevs, start, end);
    assert!(resolved.is_none());
}

#[test]
fn route_between_one_cell_is_that_cell() {
    let columns = HexGridColumns(3);
    let rows = HexGridRows(2);
    let grid = HexHashGrid::from_rows_and_columns_with_init(&columns, &rows, |_| {});
    let context = PathContext::from_args(&rows, &columns, &grid);
    let start = GridIndex::new(0, 0);
    let tile_state = context.tile_state(start, start);
    let path = try_get_path(&tile_state, &Dijkstra, start, start, 50).unwrap();
    assert_eq!(path.nodes, vec![start]);
}

#[test]
fn step_measures() {
    let a = GridIndex::new(0, 0);
    let b = GridIndex::new(1, 0);
    let one: u32 = DistanceFunction::<GridIndex, u32>::get_distance(&ConstOneDF, &a, &b);
    assert_eq!(one, 1);
    assert_eq!(WorldDistance { size: 50 }.get_distance(&a, &b), 50);
    assert_eq!(<u32 as DistanceValue>::max(), u32::MAX);
    assert_eq!(<u32 as DistanceValue>::zero(), 0);
    assert_eq!(<u32 as DistanceValue>::one(), 1);
}

#[test]
fn dijkstra_as_an_algorithm_needs_its_start_among_the_pathable_cells() {
    let columns = HexGridColumns(5);
    let rows = HexGridRows(3);
    let grid = HexHashGrid::from_rows_and_columns_with_init(&columns, &rows, |_| {});
    let context = PathContext::from_args(&rows, &columns, &grid);
    let inside = GridIndex::new(-1, 0);
    let other = GridIndex::new(1, 1);
    let path = Dijkstra.calculate_path(context, inside, other).unwrap();
    assert_stitched(&path, inside, other);
    assert_eq!(path.nodes.len() - 1, hex_steps(inside, other));
    let on_edge = GridIndex::new(-3, 0);
    assert!(Dijkstra.calculate_path(context, on_edge, other).is_none());
    let seeds = hex_paths::path::seed_pathable(context, inside);
    assert_eq!(seeds.get(&inside), Some(0));
    assert_eq!(seeds.get(&other), Some(u32::MAX));
    assert_eq!(seeds.get(&on_edge), None);
    let again = Dijkstra
        .calculate_path_distance_aware(context, seeds, inside, other)
        .unwrap();
    assert_eq!(again.nodes.len() - 1, 3);
}

#[test]
fn initial_distances_leave_out_what_is_blocked() {
    let mut tile_state = CellMap::<TileState>::new();
    let a = GridIndex::new(0, 0);
    let b = GridIndex::new(1, 0);
    let c = GridIndex::new(2, 0);
    tile_state.set_state(&a, TileState::Useable);
    tile_state.set_state(&b, TileState::Blocked);
    tile_state.set_state(&c, TileState::Useable);
    let distances = tile_state.get_initial_distances::<CellMap<u32>>(&a);
    assert_eq!(distances.len(), 2);
    assert_eq!(distances.get(&a), Some(0));
    assert_eq!(distances.get(&b), None);
    assert_eq!(distances.get(&c), Some(u32::MAX));
    assert!(tile_state.is_blocked(&b));
    assert!(!tile_state.is_blocked(&a));
    assert!(!tile_state.is_blocked(&GridIndex::new(9, 9)));
}

#[test]
fn random_unoccupied_is_useable() {
    let mut tile_state = CellMap::<TileState>::new();
    let mut rng = rand::rng();
    assert_eq!(tile_state.get_random_unoccupied(&mut rng), None);
    tile_state.set_state(&GridIndex::new(0, 0), TileState::Blocked);
    assert_eq!(tile_state.get_random_unoccupied(&mut rng), None);
    tile_state.set_state(&GridIndex::new(1, 0), TileState::Useable);
    tile_state.set_state(&GridIndex::new(2, 0), TileState::Blocked);
    for _ in 0..20 {
        assert_eq!(tile_state.get_random_unoccupied(&mut rng), Some(GridIndex::new(1, 0)));
    }
}

#[test]
fn least_entry_is_taken_out() {
    let mut distances = CellMap::<u32>::from_pairs(vec![
        (GridIndex::new(0, 0), 7),
        (GridIndex::new(1, 0), 3),
        (GridIndex::new(2, 0), 9),
    ]);
    assert_eq!(DistanceCache::get_min(&distances), Some((GridIndex::new(1, 0), 3)));
    assert_eq!(get_min(&mut distances), Some((GridIndex::new(1, 0), 3)));
    assert_eq!(distances.len(), 2);
    assert_eq!(get_min(&mut distances), Some((GridIndex::new(0, 0), 7)));
    assert_eq!(get_min(&mut distances), Some((GridIndex::new(2, 0), 9)));
    assert_eq!(get_min(&mut distances), None);
    assert_eq!(distances.len(), 0);
}

#[test]
fn distances_are_only_lowered() {
    let mut distances = CellMap::<u32>::from_pairs(vec![(GridIndex::new(0, 0), 7)]);
    let at = GridIndex::new(0, 0);
    assert_eq!(distances.update_distance(&at, 9), CacheUpdateResult::Ignored);
    assert_eq!(distances.get(&at), Some(7));
    assert_eq!(distances.update_distance(&at, 7), CacheUpdateResult::Ignored);
    assert_eq!(distances.update_distance(&at, 4), CacheUpdateResult::Updated);
    assert_eq!(distances.get(&at), Some(4));
    let missing = GridIndex::new(5, 5);
    assert_eq!(distances.update_distance(&missing, 1), CacheUpdateResult::Ignored);
    assert_eq!(distances.get(&missing), None);
}

#[test]
fn caches_differ_in_what_a_write_to_a_missing_key_does() {
    let at = GridIndex::new(3, -1);
    let mut cache = CellMap::<u32>::new();
    assert!(Cache::<IgnoreMissingEntries>::is_empty(&cache));
    assert_eq!(
        Cache::<IgnoreMissingEntries>::update(&mut cache, &at, 5, |_| true),
        CacheUpdateResult::Ignored
    );
    assert_eq!(Cache::<IgnoreMissingEntries>::get(&cache, &at), None);
    assert_eq!(
        Cache::<InsertMissingEntries>::update(&mut cache, &at, 5, |_| false),
        CacheUpdateResult::Inserted
    );
    assert_eq!(Cache::<InsertMissingEntries>::get(&cache, &at), Some(5));
    assert_eq!(
        Cache::<InsertMissingEntries>::update(&mut cache, &at, 6, |_| false),
        CacheUpdateResult::Ignored
    );
    assert_eq!(cache.get(&at), Some(5));
    assert_eq!(
        Cache::<IgnoreMissingEntries>::update(&mut cache, &at, 6, |old| *old == 5),
        CacheUpdateResult::Updated
    );
    assert_eq!(cache.get(&at), Some(6));
    assert_eq!(Cache::<IgnoreMissingEntries>::len(&cache), 1);
    assert_eq!(Cache::<InsertMissingEntries>::keys(&cache), vec![at]);
    assert_eq!(Cache::<IgnoreMissingEntries>::remove(&mut cache, &at), Some(6));
    assert_eq!(Cache::<IgnoreMissingEntries>::remove(&mut cache, &at), None);
    assert!(Cache::<InsertMissingEntries>::is_empty(&cache));
    cache.insert(&at, 1);
    cache.insert(&GridIndex::new(0, 0), 2);
    assert_eq!(cache.len(), 2);
    Cache::<InsertMissingEntries>::clear(&mut cache);
    assert_eq!(cache.len(), 0);
    assert_eq!(cache.get(&at), None);
}

#[test]
fn later_pairs_replace_earlier_ones() {
    let at = GridIndex::new(1, 1);
    let cache = CellMap::<u32>::from_pairs(vec![(at, 1), (GridIndex::new(0, 0), 2), (at, 3)]);
    assert_eq!(cache.len(), 2);
    assert_eq!(cache.get(&at), Some(3));
    let mut keys = cache.keys();
    keys.sort_by_key(|c| (c.r, c.q));
    assert_eq!(keys, vec![GridIndex::new(0, 0), at]);
}

#[test]
fn resolver_follows_the_links_back() {
    let a = GridIndex::new(0, 0);
    let b = GridIndex::new(1, 0);
    let c = GridIndex::new(2, 0);
    let d = GridIndex::new(3, 0);
    let mut prevs = CellMap::<GridIndex>::new();
    prevs.insert(&d, c);
    prevs.insert(&c, b);
    prevs.insert(&b, a);
    let nodes = get_shortest_path::<GridIndex, InsertMissingEntries, _>(&prevs, d, a);
    assert_eq!(nodes, Some(vec![a, b, c, d]));
    let single = get_shortest_path::<GridIndex, InsertMissingEntries, _>(&prevs, a, a);
    assert_eq!(single, Some(vec![a]));
    let none = get_shortest_path::<GridIndex, InsertMissingEntries, _>(&prevs, a, d);
    assert_eq!(none, None);
    let dangling =
        get_shortest_path::<GridIndex, InsertMissingEntries, _>(&prevs, d, GridIndex::new(9, 9));
    assert_eq!(dangling, None);
}

#[test]
fn resolver_gives_up_on_a_cycle() {
    let a = GridIndex::new(0, 0);
    let b = GridIndex::new(1, 0);
    let c = GridIndex::new(2, 0);
    let mut prevs = CellMap::<GridIndex>::new();
    prevs.insert(&a, b);
    prevs.insert(&b, c);
    prevs.insert(&c, a);
    let start = GridIndex::new(5, 5);
    let nodes = get_shortest_path::<GridIndex, InsertMissingEntries, _>(&prevs, a, start);
    assert_eq!(nodes, None);
}

#[test]
fn generator_joins_the_ends_of_an_open_region() {
    let columns = HexGridColumns(5);
    let rows = HexGridRows(5);
    let grid = HexHashGrid::from_rows_and_columns_with_init(&columns, &rows, |_| {});
    let context = PathContext::from_args(&rows, &columns, &grid);
    let start = GridIndex::new(-2, 0);
    let end = GridIndex::new(2, 0);
    for _ in 0..20 {
        let out = RandomDijkstra { tile_size: 50 }.stitch(context, start, end);
        assert!(out.failed < RETRY_CEILING);
        let path = out.path.unwrap();
        assert_stitched(&path, start, end);
    }
}

#[test]
fn generator_end_to_end_on_a_small_region() {
    let columns = HexGridColumns(3);
    let rows = HexGridRows(2);
    let grid = HexHashGrid::from_rows_and_columns_with_init(&columns, &rows, |_| {});
    let context = PathContext::from_args(&rows, &columns, &grid);
    let start = GridIndex::new(-2, 0);
    let end = GridIndex::new(2, 0);
    let path = RandomDijkstra { tile_size: 50 }.calculate_path(context, start, end).unwrap();
    assert_stitched(&path, start, end);
    let states = context.tile_state(start, end);
    for n in &path.nodes {
        assert_eq!(states.get(n), Some(TileState::Useable));
    }
}

#[test]
fn generator_gives_up_within_its_ceiling() {
    let columns = HexGridColumns(5);
    let rows = HexGridRows(3);
    let mut grid = HexHashGrid::from_rows_and_columns_with_init(&columns, &rows, |_| {});
    let end = GridIndex::new(1, 0);
    for d in GridDirections::all_offsets() {
        grid.set_entry(end + d, GridEntry::Tower);
    }
    let context = PathContext::from_args(&rows, &columns, &grid);
    let start = GridIndex::new(-2, 0);
    let out = RandomDijkstra { tile_size: 50 }.stitch(context, start, end);
    assert!(out.path.is_none());
    assert_eq!(out.failed, RETRY_CEILING);
    assert_eq!(RETRY_CEILING, 100);
    assert!(RandomDijkstra { tile_size: 50 }.calculate_path(context, start, end).is_none());
}

#[test]
fn generator_gets_through_a_corridor() {
    let columns = HexGridColumns(3);
    let rows = HexGridRows(3);
    let mut grid = HexHashGrid::from_rows_and_columns_with_init(&columns, &rows, |_| {});
    for c in grid.keys() {
        if c.r != 0 {
            grid.set_entry(c, GridEntry::Tower);
        }
    }
    let context = PathContext::from_args(&rows, &columns, &grid);
    let start = GridIndex::new(-3, 0);
    let end = GridIndex::new(3, 0);
    let out = RandomDijkstra { tile_size: 50 }.stitch(context, start, end);
    if let Some(path) = out.path {
        assert!(out.failed < RETRY_CEILING);
        let expected: Vec<GridIndex> = (-3..=3).map(|q| GridIndex::new(q, 0)).collect();
        assert_eq!(path.nodes, expected);
    } else {
        assert_eq!(out.failed, RETRY_CEILING);
    }
}

#[test]
fn cells_step_by_offsets() {
    let a = GridIndex::new(2, -3);
    assert_eq!(a.checked_step(GridIndex::new(1, 1)), Some(GridIndex::new(3, -2)));
    assert_eq!(GridIndex::new(i32::MAX, 0).checked_step(GridIndex::new(1, 0)), None);
    assert!(a.same(&GridIndex::new(2, -3)));
    assert!(!a.same(&GridIndex::new(2, 3)));
}

#[test]
fn a_segment_blocks_what_it_uses() {
    let columns = HexGridColumns(3);
    let rows = HexGridRows(3);
    let mut grid = HexHashGrid::from_rows_and_columns_with_init(&columns, &rows, |_| {});
    for c in grid.keys() {
        if c.r != 0 {
            grid.set_entry(c, GridEntry::Tower);
        }
    }
    let context = PathContext::from_args(&rows, &columns, &grid);
    let start = GridIndex::new(-3, 0);
    let end = GridIndex::new(3, 0);
    let middle = GridIndex::new(0, 0);
    let mut tile_state = context.tile_state(start, end);
    let mut path = vec![];
    let generator = RandomDijkstra { tile_size: 50 };
    let segment = generator.extend(&mut tile_state, &mut path, start, middle).unwrap();
    let expected: Vec<GridIndex> = (-3..=0).map(|q| GridIndex::new(q, 0)).collect();
    assert_eq!(segment, expected);
    assert_eq!(path, expected[..3].to_vec());
    for c in &path {
        assert_eq!(tile_state.get(c), Some(TileState::Blocked));
    }
    assert_eq!(tile_state.get(&middle), Some(TileState::Useable));
    assert!(generator.extend(&mut tile_state, &mut path, middle, GridIndex::new(-2, 0)).is_none());
    assert_eq!(path, expected[..3].to_vec());
    assert_eq!(tile_state.get(&GridIndex::new(1, 0)), Some(TileState::Useable));
    let onward = generator.extend(&mut tile_state, &mut path, middle, end).unwrap();
    assert_eq!(onward, (0..=3).map(|q| GridIndex::new(q, 0)).collect::<Vec<_>>());
    assert_eq!(path, (-3..=2).map(|q| GridIndex::new(q, 0)).collect::<Vec<_>>());
    let here = generator.extend(&mut tile_state, &mut path, end, end).unwrap();
    assert_eq!(here, vec![end]);
    assert_eq!(path.len(), 6);
}

#[test]
fn one_attempt_joins_fails_or_finds_no_waypoint() {
    let columns = HexGridColumns(5);
    let rows = HexGridRows(3);
    let mut grid = HexHashGrid::from_rows_and_columns_with_init(&columns, &rows, |_| {});
    let end = GridIndex::new(1, 0);
    for d in GridDirections::all_offsets() {
        grid.set_entry(end + d, GridEntry::Tower);
    }
    let context = PathContext::from_args(&rows, &columns, &grid);
    let start = GridIndex::new(-2, 0);
    let generator = RandomDijkstra { tile_size: 50 };
    let mut rng = rand::rng();
    let before = context.tile_state(start, end);
    for num_points in 1..=3 {
        let mut tile_state = context.tile_state(start, end);
        let outcome = generator.attempt(&mut tile_state, start, end, num_points, &mut rng);
        assert!(matches!(outcome, Attempt::Failed));
        for c in before.keys() {
            assert_eq!(tile_state.get(&c), before.get(&c));
        }
    }
    let mut none = CellMap::<TileState>::new();
    none.set_state(&start, TileState::Blocked);
    let outcome = generator.attempt(&mut none, start, end, 2, &mut rng);
    assert!(matches!(outcome, Attempt::NoWaypoint));
    assert_eq!(none.get(&start), Some(TileState::Blocked));
    let open = HexHashGrid::from_rows_and_columns_with_init(&columns, &rows, |_| {});
    let context = PathContext::from_args(&rows, &columns, &open);
    let far = GridIndex::new(2, 0);
    let mut joined = 0;
    for _ in 0..50 {
        let mut tile_state = context.tile_state(start, far);
        match generator.attempt(&mut tile_state, start, far, 3, &mut rng) {
            Attempt::Joined(path) => {
                joined += 1;
                assert_stitched(&path, start, far);
                let states = context.tile_state(start, far);
                for n in &path.nodes {
                    assert_eq!(states.get(n), Some(TileState::Useable));
                }
                for n in &path.nodes[..path.nodes.len() - 1] {
                    assert_eq!(tile_state.get(n), Some(TileState::Blocked));
                }
                assert_eq!(tile_state.get(&far), Some(TileState::Useable));
            }
            Attempt::Failed => {
                let states = context.tile_state(start, far);
                for c in states.keys() {
                    assert_eq!(tile_state.get(&c), states.get(&c));
                }
            }
            Attempt::NoWaypoint => panic!("cells are useable"),
        }
    }
    assert!(joined > 0);
}

#[test]
fn a_finished_search_leaves_links_only_where_there_are_routes() {
    let a = GridIndex::new(-1, 0);
    let b = GridIndex::new(0, 0);
    let c = GridIndex::new(1, 0);
    let resolver = ShortesPathResolver;
    let one = ConstOneDF;
    let dirs = GridDirections::all_offsets();

    let mut tile_state = CellMap::<TileState>::new();
    tile_state.set_state(&a, TileState::Useable);
    tile_state.set_state(&b, TileState::Useable);
    tile_state.set_state(&c, TileState::Useable);
    let mut distances = CellMap::<u32>::from_pairs(vec![(a, 0), (b, u32::MAX), (c, u32::MAX)]);
    let mut prevs = CellMap::<GridIndex>::new();
    let mut data = Dijkstra.create_data(&mut prevs, &mut distances, &resolver, &tile_state, &one);
    data.calcualte_distances(&dirs, a, c);
    assert_eq!(distances.len(), 0);
    assert_eq!(prevs.len(), 2);
    assert_eq!(prevs.get(&b), Some(a));
    assert_eq!(prevs.get(&c), Some(b));

    tile_state.set_state(&b, TileState::Blocked);
    let mut distances = CellMap::<u32>::from_pairs(vec![(a, 0), (c, u32::MAX)]);
    let mut prevs = CellMap::<GridIndex>::new();
    let mut data = Dijkstra.create_data(&mut prevs, &mut distances, &resolver, &tile_state, &one);
    assert!(data.run(a, c, &dirs).is_none());
    assert_eq!(prevs.len(), 0);
    for left in distances.keys() {
        assert_eq!(distances.get(&left), Some(u32::MAX));
        assert_eq!(left, c);
    }
}

#[test]
fn a_route_of_one_cell_needs_the_cell_useable() {
    let columns = HexGridColumns(3);
    let rows = HexGridRows(2);
    let grid = HexHashGrid::from_rows_and_columns_with_init(&columns, &rows, |_| {});
    let context = PathContext::from_args(&rows, &columns, &grid);
    let outside = GridIndex::new(40, 40);
    let out = RandomDijkstra { tile_size: 50 }.stitch(context, outside, outside);
    assert!(out.path.is_none());
    assert_eq!(out.failed, RETRY_CEILING);
}
