use hex_paths::enemy::SpawnCounter;
use hex_paths::grid::{GridEntry, GridIndex, HexGridColumns, HexGridRows, HexHashGrid};
use hex_paths::path::context::{
    Cache, CellMap, Distances, IgnoreMissingEntries, InsertMissingEntries, PathContext,
};
use hex_paths::path::random_selected::RandomDijkstra;
use hex_paths::player::Gold;
use hex_paths::stats::{wave_done, Wave};

#[test]
fn purse_pays_what_it_can_afford() {
    let mut purse = Gold(100);
    assert!(purse.pay(&Gold(20)));
    assert_eq!(purse, Gold(80));
    assert!(!purse.pay(&Gold(81)));
    assert_eq!(purse, Gold(80));
    assert!(purse.pay(&Gold(80)));
    assert_eq!(purse, Gold(0));
    purse.gain(15);
    assert_eq!(purse, Gold(15));
}

#[test]
fn waves_grow() {
    assert_eq!(Wave(0).spawn_counter().max, 20);
    assert_eq!(Wave(3).spawn_counter().max, 35);
    assert_eq!(Wave(3).spawn_counter().current, 0);
    assert_eq!(Wave(0).enemy_gold(5), 5);
    assert_eq!(Wave(2).enemy_gold(10), 30);
    assert_eq!(Wave(2).next(), Wave(3));
}

#[test]
fn a_wave_is_done_when_all_are_gone() {
    let sending = SpawnCounter { current: 3, max: 20 };
    let sent = SpawnCounter { current: 20, max: 20 };
    assert!(!wave_done(&sending, 0, true));
    assert!(!wave_done(&sent, 2, true));
    assert!(wave_done(&sent, 0, true));
    assert!(wave_done(&sending, 5, false));
}

#[test]
fn distances_keep_the_best() {
    let mut distances = Distances::new();
    let at = GridIndex::new(1, 1);
    assert_eq!(distances.get(&at), None);
    assert!(distances.update(&at, 9));
    assert_eq!(distances.get(&at), Some(9));
    assert!(!distances.update(&at, 9));
    assert!(!distances.update(&at, 12));
    assert!(distances.update(&at, 4));
    assert_eq!(distances.get(&at), Some(4));
    distances.clear();
    assert_eq!(distances.get(&at), None);
    assert_eq!(Distances::default().get(&at), None);
}

#[test]
fn first_by_a_comparison() {
    let cache = CellMap::<u32>::from_pairs(vec![
        (GridIndex::new(0, 0), 7),
        (GridIndex::new(1, 0), 3),
        (GridIndex::new(2, 0), 9),
    ]);
    let least = Cache::<IgnoreMissingEntries>::min_by(&cache, |l, r| l < r);
    assert_eq!(least, Some((GridIndex::new(1, 0), 3)));
    let greatest = Cache::<InsertMissingEntries>::min_by(&cache, |l, r| l > r);
    assert_eq!(greatest, Some((GridIndex::new(2, 0), 9)));
    assert_eq!(cache.least_by(|l, r| l < r), Some((GridIndex::new(1, 0), 3)));
    let empty = CellMap::<u32>::new();
    assert_eq!(empty.least_by(|l, r| l < r), None);
}

#[test]
fn nothing_is_attempted_where_no_cell_is_useable() {
    let columns = HexGridColumns(3);
    let rows = HexGridRows(2);
    let mut grid = HexHashGrid::from_rows_and_columns_with_init(&columns, &rows, |_| {});
    for c in grid.keys() {
        grid.set_entry(c, GridEntry::Tower);
    }
    let context = PathContext::from_args(&rows, &columns, &grid);
    let outside = GridIndex::new(50, 50);
    let out = RandomDijkstra { tile_size: 50 }.stitch(context, outside, GridIndex::new(60, 60));
    assert!(out.path.is_none());
    assert_eq!(out.failed, 0);
}

#[test]
fn generator_on_one_cell() {
    let columns = HexGridColumns(3);
    let rows = HexGridRows(2);
    let grid = HexHashGrid::from_rows_and_columns_with_init(&columns, &rows, |_| {});
    let context = PathContext::from_args(&rows, &columns, &grid);
    let at = GridIndex::new(0, 0);
    let out = RandomDijkstra { tile_size: 50 }.stitch(context, at, at);
    if let Some(path) = out.path {
        assert_eq!(path.nodes.first(), Some(&at));
        assert_eq!(path.nodes.last(), Some(&at));
        assert_eq!(path.nodes.len(), 1);
    }
}

#[test]
fn a_route_is_owed_where_only_the_ends_are_useable() {
    let columns = HexGridColumns(0);
    let generator = RandomDijkstra { tile_size: 50 };
    let one = HexGridRows(0);
    let grid = HexHashGrid::from_rows_and_columns_with_init(&columns, &one, |_| {});
    let context = PathContext::from_args(&one, &columns, &grid);
    let at = GridIndex::new(0, 0);
    for _ in 0..20 {
        let out = generator.stitch(context, at, at);
        assert_eq!(out.failed, 0);
        assert_eq!(out.path.unwrap().nodes, vec![at]);
    }
    let three = HexGridRows(1);
    let grid = HexHashGrid::from_rows_and_columns_with_init(&columns, &three, |_| {});
    let context = PathContext::from_args(&three, &columns, &grid);
    let start = GridIndex::new(-1, 0);
    for _ in 0..20 {
        let out = generator.stitch(context, start, at);
        assert_eq!(out.failed, 0);
        assert_eq!(out.path.unwrap().nodes, vec![start, at]);
        let path = hex_paths::path::SinglePathAlgorithm::calculate_path(
            &generator, context, start, at,
        );
        assert_eq!(path.unwrap().nodes, vec![start, at]);
    }
}
