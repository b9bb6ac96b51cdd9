use hex_paths::enemy::SpawnCounter;
use hex_paths::grid::{
    GridDirections, GridEntry, GridEntryState, GridIndex, HexGridEntryState, HexHashGrid,
    HexSpatialGrid,
};
use hex_paths::path::chiseled::{is_valid_path, Chiseled};
use hex_paths::path::context::PathContext;
use hex_paths::path::random::{choose_cell, choose_from_vec, RandomSelector};
use hex_paths::path::random_selected::TotalRandom;
use hex_paths::path::{
    DefaultSinglePathFinder, EndSelector, HexPath, SinglePathFinder, StartSelector,
};
use hex_paths::grid::{HexGridColumns, HexGridRows};
use hex_paths::path::random_selected::RandomDijkstra;

#[test]
fn spawn_counter_counts_up_to_its_max() {
    let mut counter = SpawnCounter::new(2);
    assert_eq!(counter.current, 0);
    assert_eq!(counter.max, 2);
    assert!(counter.can_spawn());
    counter.current += 1;
    assert!(counter.can_spawn());
    counter.current += 1;
    assert!(!counter.can_spawn());
    assert!(!SpawnCounter::new(0).can_spawn());
}

#[test]
fn cells_add_and_subtract_by_component() {
    let a = GridIndex::new(2, -3);
    let b = GridIndex::new(-5, 7);
    assert_eq!(a + b, GridIndex::new(-3, 4));
    assert_eq!(a - b, GridIndex::new(7, -10));
    assert_eq!(a * 3, GridIndex::new(6, -9));
    assert_eq!(GridIndex::new(7, -7) / 2, GridIndex::new(3, -3));
    assert_eq!(a.checked_add(b), Some(GridIndex::new(-3, 4)));
    assert_eq!(GridIndex::new(i32::MAX, 0).checked_add(GridIndex::new(1, 0)), None);
    assert_eq!(GridIndex::new(0, i32::MIN).checked_add(GridIndex::new(0, -1)), None);
}

#[test]
fn six_directions() {
    let offsets = GridDirections::all_offsets();
    assert_eq!(
        offsets,
        vec![
            GridIndex::new(1, 0),
            GridIndex::new(-1, 0),
            GridIndex::new(-1, 1),
            GridIndex::new(0, 1),
            GridIndex::new(0, -1),
            GridIndex::new(1, -1),
        ]
    );
    let variants = GridDirections::variants();
    assert_eq!(variants.len(), 6);
    for (v, o) in variants.iter().zip(offsets.iter()) {
        assert_eq!(v.get(), *o);
    }
    assert_eq!(GridDirections::TopLeft.get(), GridIndex::new(-1, 1));
}

#[test]
fn entry_state_from_a_pair() {
    let state = HexGridEntryState::from((GridEntry::Tower, GridEntryState::Highlight));
    assert_eq!(state, HexGridEntryState(GridEntry::Tower, GridEntryState::Highlight));
}

#[test]
fn next_on_a_path() {
    let a = GridIndex::new(0, 0);
    let b = GridIndex::new(1, 0);
    let c = GridIndex::new(2, 0);
    let path = HexPath { nodes: vec![a, b, c, b], start: a, end: b };
    assert_eq!(path.get_next(a), Some(b));
    assert_eq!(path.get_next(b), Some(c));
    assert_eq!(path.get_next(c), Some(b));
    assert_eq!(path.get_next(GridIndex::new(9, 9)), None);
    let short = HexPath { nodes: vec![a], start: a, end: a };
    assert_eq!(short.get_next(a), None);
    let empty: HexPath<GridIndex> = HexPath { nodes: vec![], start: a, end: a };
    assert_eq!(empty.get_next(a), None);
}

#[test]
fn grid_from_a_path() {
    let a = GridIndex::new(0, 0);
    let b = GridIndex::new(1, 0);
    let c = GridIndex::new(2, 0);
    let path = HexPath { nodes: vec![a, b, c], start: a, end: c };
    let mut grid = HexHashGrid::from_path(&path);
    assert_eq!(grid.entry(a), Some(GridEntry::PathStart));
    assert_eq!(grid.entry(b), Some(GridEntry::Path));
    assert_eq!(grid.entry(c), Some(GridEntry::PathEnd));
    assert_eq!(grid.entry(GridIndex::new(3, 0)), None);
    assert!(grid.contains(&b));
    assert!(!grid.contains(&GridIndex::new(3, 0)));
    assert!(grid.can_be_path(&b));
    assert!(!grid.can_be_path(&a));
    assert!(!grid.can_be_path(&c));
    assert!(!grid.can_be_path(&GridIndex::new(3, 0)));
    let mut keys = grid.keys();
    keys.sort_by_key(|k| (k.r, k.q));
    assert_eq!(keys, vec![a, b, c]);
    grid.set_entry(GridIndex::new(3, 0), GridEntry::Tower);
    grid.clear_path();
    assert_eq!(grid.entry(a), Some(GridEntry::Empty));
    assert_eq!(grid.entry(b), Some(GridEntry::Empty));
    assert_eq!(grid.entry(c), Some(GridEntry::Empty));
    assert_eq!(grid.entry(GridIndex::new(3, 0)), Some(GridEntry::Tower));
    assert!(grid.can_be_path(&a));
    assert!(HexHashGrid::default().keys().is_empty());
}

fn sorted(mut found: Vec<u64>) -> Vec<u64> {
    found.sort();
    found
}

#[test]
fn nearby_is_the_cell_and_its_six_neighbours() {
    let mut grid = HexSpatialGrid::new();
    let center = GridIndex::new(0, 0);
    assert!(grid.get_nearby(&center).is_empty());
    grid.update(center, 1);
    grid.update(GridIndex::new(1, 0), 2);
    grid.update(GridIndex::new(-1, 1), 3);
    grid.update(GridIndex::new(1, -1), 4);
    grid.update(GridIndex::new(2, 0), 5);
    grid.update(GridIndex::new(1, 1), 6);
    grid.update(center, 7);
    assert_eq!(sorted(grid.get_nearby(&center)), vec![1, 2, 3, 4, 7]);
    assert_eq!(sorted(grid.get_nearby(&center)), vec![1, 2, 3, 4, 7]);
    assert_eq!(sorted(grid.get_nearby(&GridIndex::new(2, 0))), vec![2, 5, 6]);
    assert!(grid.get_nearby(&GridIndex::new(10, 10)).is_empty());
}

#[test]
fn an_entity_is_on_one_cell_only() {
    let mut grid = HexSpatialGrid::default();
    let a = GridIndex::new(0, 0);
    let b = GridIndex::new(5, 5);
    grid.update(a, 1);
    grid.update(b, 1);
    assert!(grid.get_nearby(&a).is_empty());
    assert_eq!(grid.get_nearby(&b), vec![1]);
    grid.update(b, 1);
    assert_eq!(grid.get_nearby(&b), vec![1]);
    grid.update(a, 2);
    grid.remove(1);
    assert!(grid.get_nearby(&b).is_empty());
    assert_eq!(grid.get_nearby(&a), vec![2]);
    grid.remove(1);
    grid.remove(99);
    assert_eq!(grid.get_nearby(&a), vec![2]);
    grid.remove(2);
    assert!(grid.get_nearby(&a).is_empty());
}

#[test]
fn full_scan_finds_every_entity_once() {
    let mut grid = HexSpatialGrid::new();
    let cells: Vec<GridIndex> =
        (-3..=3).flat_map(|q| (-3..=3).map(move |r| GridIndex::new(q, r))).collect();
    for step in 0u64..200 {
        let entity = step % 17;
        let cell = cells[((step * 31 + 7) % (cells.len() as u64)) as usize];
        if step % 5 == 4 {
            grid.remove(entity);
        } else {
            grid.update(cell, entity);
        }
    }
    let mut seen = vec![0usize; 17];
    for cell in &cells {
        let here: Vec<u64> = grid
            .get_nearby(cell)
            .into_iter()
            .collect();
        for e in here {
            seen[e as usize] += 1;
        }
    }
    for count in seen {
        assert!(count == 0 || (1..=7).contains(&count));
    }
    let far = GridIndex::new(100, 100);
    grid.update(far, 3);
    assert_eq!(grid.get_nearby(&far), vec![3]);
    for cell in &cells {
        assert!(!grid.get_nearby(cell).contains(&3));
    }
}

#[test]
fn nearby_at_the_rim_of_the_lattice() {
    let mut grid = HexSpatialGrid::new();
    let rim = GridIndex::new(i32::MAX, i32::MIN);
    grid.update(rim, 8);
    grid.update(GridIndex::new(i32::MAX - 1, i32::MIN), 9);
    assert_eq!(sorted(grid.get_nearby(&rim)), vec![8, 9]);
}

#[test]
fn one_element_is_taken_at_random() {
    let mut rng = rand::rng();
    let mut empty: Vec<u32> = vec![];
    assert_eq!(choose_from_vec(&mut empty, &mut rng), None);
    let mut v = vec![10, 20, 30];
    let taken = choose_from_vec(&mut v, &mut rng).unwrap();
    assert_eq!(v.len(), 2);
    assert!(!v.contains(&taken));
    let mut all = v.clone();
    all.push(taken);
    all.sort();
    assert_eq!(all, vec![10, 20, 30]);
    let mut one = vec![5];
    assert_eq!(choose_from_vec(&mut one, &mut rng), Some(5));
    assert!(one.is_empty());
    assert_eq!(choose_cell(&vec![], &mut rng), None);
    let cells = vec![GridIndex::new(0, 0), GridIndex::new(1, 1)];
    for _ in 0..20 {
        assert!(cells.contains(&choose_cell(&cells, &mut rng).unwrap()));
    }
}

#[test]
fn selectors_pick_free_cells_of_their_edge() {
    let columns = HexGridColumns(3);
    let rows = HexGridRows(2);
    let mut grid = HexHashGrid::from_rows_and_columns_with_init(&columns, &rows, |_| {});
    grid.set_entry(GridIndex::new(-1, -1), GridEntry::Tower);
    grid.set_entry(GridIndex::new(-2, 1), GridEntry::Tower);
    grid.set_entry(GridIndex::new(3, -1), GridEntry::Tower);
    grid.set_entry(GridIndex::new(2, 0), GridEntry::Tower);
    let context = PathContext::from_args(&rows, &columns, &grid);
    for _ in 0..20 {
        assert_eq!(RandomSelector.get_start(context), Some(GridIndex::new(-2, 0)));
        assert_eq!(RandomSelector.get_end(context), Some(GridIndex::new(2, 1)));
    }
    let finder = DefaultSinglePathFinder::new(RandomDijkstra { tile_size: 50 });
    let path = finder.get_path(context).unwrap();
    assert_eq!(path.start, GridIndex::new(-2, 0));
    assert_eq!(path.end, GridIndex::new(2, 1));
    assert_eq!(path.nodes.first(), Some(&path.start));
    assert_eq!(path.nodes.last(), Some(&path.end));
    let mut full = HexHashGrid::from_rows_and_columns_with_init(&columns, &rows, |_| {});
    for c in full.keys() {
        full.set_entry(c, GridEntry::Tower);
    }
    let context = PathContext::from_args(&rows, &columns, &full);
    assert_eq!(RandomSelector.get_start(context), None);
    assert_eq!(RandomSelector.get_end(context), None);
    let finder = DefaultSinglePathFinder::new(RandomDijkstra { tile_size: 50 });
    assert!(finder.get_path(context).is_none());
}

#[test]
fn the_walk_goes_to_pathable_neighbours() {
    let columns = HexGridColumns(5);
    let rows = HexGridRows(3);
    let mut grid = HexHashGrid::from_rows_and_columns_with_init(&columns, &rows, |_| {});
    grid.set_entry(GridIndex::new(1, 0), GridEntry::Tower);
    let context = PathContext::from_args(&rows, &columns, &grid);
    let start = GridIndex::new(-1, 0);
    let mut options = TotalRandom.options(context, start, GridIndex::new(0, 0));
    options.sort_by_key(|c| (c.r, c.q));
    assert_eq!(
        options,
        vec![
            GridIndex::new(0, -1),
            GridIndex::new(1, -1),
            GridIndex::new(-1, 1),
            GridIndex::new(0, 1),
        ]
    );
    let mut rng = rand::rng();
    for _ in 0..20 {
        let next = TotalRandom.step(context, start, GridIndex::new(0, 0), &mut rng).unwrap();
        assert!(options.contains(&next));
    }
    for c in grid.keys() {
        grid.set_entry(c, GridEntry::Tower);
    }
    let context = PathContext::from_args(&rows, &columns, &grid);
    assert_eq!(TotalRandom.step(context, start, GridIndex::new(0, 0), &mut rng), None);
}

#[test]
fn chiselling_keeps_cells_that_are_needed() {
    let columns = HexGridColumns(3);
    let rows = HexGridRows(2);
    let grid = HexHashGrid::from_rows_and_columns_with_init(&columns, &rows, |_| {});
    let context = PathContext::from_args(&rows, &columns, &grid);
    let start = GridIndex::new(-2, 0);
    let end = GridIndex::new(2, 0);
    let nodes = vec![GridIndex::new(-1, 0), GridIndex::new(0, 0), GridIndex::new(1, 0)];
    let path = HexPath { nodes: nodes.clone(), start, end };
    assert!(!is_valid_path(&path, context));
    let same = HexPath { nodes: nodes.clone(), start, end: start };
    assert!(is_valid_path(&same, context));
    let mut left = vec![GridIndex::new(-1, 0), GridIndex::new(1, 0)];
    Chiseled.chisel(context, start, end, &mut left, GridIndex::new(0, 0));
    assert_eq!(left, vec![GridIndex::new(-1, 0), GridIndex::new(1, 0), GridIndex::new(0, 0)]);
    Chiseled.chisel(context, start, start, &mut left, GridIndex::new(5, 5));
    assert_eq!(left.len(), 3);
    assert!(Chiseled.finish(context, start, end, left.clone()).is_none());
    let found = Chiseled.finish(context, start, start, left.clone()).unwrap();
    assert_eq!(found.nodes, left);
}
