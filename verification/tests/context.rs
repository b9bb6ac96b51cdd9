use hex_paths::grid::{GridEntry, GridIndex, HexGridColumns, HexGridRows, HexHashGrid};
use hex_paths::path::context::PathContext;
use hex_paths::path::dijkstra::TileState;

#[test]
fn size_hint_end() {
    let columns = HexGridColumns(10);
    let rows = HexGridRows(10);
    let grid = HexHashGrid::new();
    let context = PathContext::from_args(&rows, &columns, &grid);
    let mut iter = context.iter_end_column();
    assert_eq!((11, Some(11)), iter.size_hint());
    iter.next();
    assert_eq!((10, Some(10)), iter.size_hint());
    iter.next();
    assert_eq!((9, Some(9)), iter.size_hint());
    iter.next();
    assert_eq!((8, Some(8)), iter.size_hint());
    iter.next();
    assert_eq!((7, Some(7)), iter.size_hint());
    iter.next();
    assert_eq!((6, Some(6)), iter.size_hint());
    iter.next();
    assert_eq!((5, Some(5)), iter.size_hint());
    iter.next();
    assert_eq!((4, Some(4)), iter.size_hint());
    iter.next();
    assert_eq!((3, Some(3)), iter.size_hint());
    iter.next();
    assert_eq!((2, Some(2)), iter.size_hint());
    iter.next();
    assert_eq!((1, Some(1)), iter.size_hint());
    iter.next();
    assert_eq!((0, None), iter.size_hint());
}

#[test]
fn size_hint_start() {
    let columns = HexGridColumns(10);
    let rows = HexGridRows(10);
    let grid = HexHashGrid::new();
    let context = PathContext::from_args(&rows, &columns, &grid);
    let mut iter = context.iter_start_column();
    assert_eq!((11, Some(11)), iter.size_hint());
    iter.next();
    assert_eq!((10, Some(10)), iter.size_hint());
    iter.next();
    assert_eq!((9, Some(9)), iter.size_hint());
    iter.next();
    assert_eq!((8, Some(8)), iter.size_hint());
    iter.next();
    assert_eq!((7, Some(7)), iter.size_hint());
    iter.next();
    assert_eq!((6, Some(6)), iter.size_hint());
    iter.next();
    assert_eq!((5, Some(5)), iter.size_hint());
    iter.next();
    assert_eq!((4, Some(4)), iter.size_hint());
    iter.next();
    assert_eq!((3, Some(3)), iter.size_hint());
    iter.next();
    assert_eq!((2, Some(2)), iter.size_hint());
    iter.next();
    assert_eq!((1, Some(1)), iter.size_hint());
    iter.next();
    assert_eq!((0, None), iter.size_hint());
}

#[test]
fn test_start_iterator() {
    let columns = HexGridColumns(10);
    let rows = HexGridRows(10);
    let grid = HexHashGrid::new();
    let context = PathContext::from_args(&rows, &columns, &grid);
    let accesses: Vec<GridIndex> = context.iter_start_column().collect();
    let expected = vec![
        GridIndex::new(-7, -5),
        GridIndex::new(-8, -4),
        GridIndex::new(-8, -3),
        GridIndex::new(-9, -2),
        GridIndex::new(-9, -1),
        GridIndex::new(-10, 0),
        GridIndex::new(-10, 1),
        GridIndex::new(-11, 2),
        GridIndex::new(-11, 3),
        GridIndex::new(-12, 4),
        GridIndex::new(-12, 5),
    ];

    assert_eq!(accesses, expected);
}

#[test]
fn test_end_iterator() {
    let columns = HexGridColumns(10);
    let rows = HexGridRows(10);
    let grid = HexHashGrid::new();
    let context = PathContext::from_args(&rows, &columns, &grid);
    let accesses: Vec<GridIndex> = context.iter_end_column().collect();
    let expected = vec![
        GridIndex::new(13, -5),
        GridIndex::new(12, -4),
        GridIndex::new(12, -3),
        GridIndex::new(11, -2),
        GridIndex::new(11, -1),
        GridIndex::new(10, 0),
        GridIndex::new(10, 1),
        GridIndex::new(9, 2),
        GridIndex::new(9, 3),
        GridIndex::new(8, 4),
        GridIndex::new(8, 5),
    ];

    assert_eq!(accesses, expected);
}

#[test]
fn column_walk_ends_with_its_last_cell() {
    let columns = HexGridColumns(10);
    let rows = HexGridRows(10);
    let grid = HexHashGrid::new();
    let context = PathContext::from_args(&rows, &columns, &grid);
    assert_eq!(context.iter_end_column().last(), Some(GridIndex::new(8, 5)));
    let mut walk = context.iter_start_column();
    assert_eq!(walk.next(), Some(GridIndex::new(-7, -5)));
    assert_eq!(walk.next(), Some(GridIndex::new(-8, -4)));
}

#[test]
fn region_of_three_columns_and_two_rows() {
    let columns = HexGridColumns(3);
    let rows = HexGridRows(2);
    let grid = HexHashGrid::from_rows_and_columns_with_init(&columns, &rows, |_| {});
    let context = PathContext::from_args(&rows, &columns, &grid);
    let all = context.all();
    let expected = vec![
        GridIndex::new(-1, -1),
        GridIndex::new(0, -1),
        GridIndex::new(1, -1),
        GridIndex::new(2, -1),
        GridIndex::new(3, -1),
        GridIndex::new(-2, 0),
        GridIndex::new(-1, 0),
        GridIndex::new(0, 0),
        GridIndex::new(1, 0),
        GridIndex::new(2, 0),
        GridIndex::new(-2, 1),
        GridIndex::new(-1, 1),
        GridIndex::new(0, 1),
        GridIndex::new(1, 1),
        GridIndex::new(2, 1),
    ];
    assert_eq!(all, expected);
    let mut keys = grid.keys();
    keys.sort_by_key(|c| (c.r, c.q));
    assert_eq!(keys, expected);
}

#[test]
fn row_ranges_are_staggered() {
    let rows = HexGridRows(10);
    let at = |column: i32| {
        let range = rows.get_actual_row_count(column);
        (range.start, range.end)
    };
    assert_eq!(at(0), (-10, 10));
    assert_eq!(at(1), (-10, 10));
    assert_eq!(at(2), (-11, 9));
    assert_eq!(at(3), (-11, 9));
    assert_eq!(at(-1), (-9, 11));
    assert_eq!(at(-2), (-9, 11));
    assert_eq!(at(-3), (-8, 12));
    assert_eq!(at(-5), (-7, 13));
    let columns = HexGridColumns(15);
    let across = columns.get_actual_column_count();
    assert_eq!((across.start, across.end), (-7, 7));
    assert!(across.contains(-7));
    assert!(!across.contains(8));
}

#[test]
fn pathable_cells_lie_inside_the_edges() {
    let columns = HexGridColumns(3);
    let rows = HexGridRows(2);
    let mut grid = HexHashGrid::from_rows_and_columns_with_init(&columns, &rows, |_| {});
    grid.set_entry(GridIndex::new(0, 0), GridEntry::Tower);
    let context = PathContext::from_args(&rows, &columns, &grid);
    assert!(context.can_be_path(&GridIndex::new(1, 0)));
    assert!(!context.can_be_path(&GridIndex::new(0, 0)));
    assert!(!context.can_be_path(&GridIndex::new(-2, 0)));
    assert!(!context.can_be_path(&GridIndex::new(2, 0)));
    assert!(!context.can_be_path(&GridIndex::new(0, 5)));
    assert!(!context.can_be_path(&GridIndex::new(9, 0)));
    let pathable = context.all_pathable();
    let expected = vec![
        GridIndex::new(0, -1),
        GridIndex::new(1, -1),
        GridIndex::new(2, -1),
        GridIndex::new(-1, 0),
        GridIndex::new(1, 0),
        GridIndex::new(-1, 1),
        GridIndex::new(0, 1),
        GridIndex::new(1, 1),
    ];
    assert_eq!(pathable, expected);
    assert!(context.can_be_path_ending(GridIndex::new(-2, 0)));
    assert!(!context.can_be_path_ending(GridIndex::new(0, 0)));
}

#[test]
fn tile_state_opens_the_two_ends() {
    let columns = HexGridColumns(3);
    let rows = HexGridRows(2);
    let mut grid = HexHashGrid::from_rows_and_columns_with_init(&columns, &rows, |_| {});
    grid.set_entry(GridIndex::new(0, 0), GridEntry::Tower);
    let context = PathContext::from_args(&rows, &columns, &grid);
    let start = GridIndex::new(-2, 0);
    let end = GridIndex::new(2, 0);
    let states = context.tile_state(start, end);
    assert_eq!(states.len(), 15);
    assert_eq!(states.get(&start), Some(TileState::Useable));
    assert_eq!(states.get(&end), Some(TileState::Useable));
    assert_eq!(states.get(&GridIndex::new(1, 0)), Some(TileState::Useable));
    assert_eq!(states.get(&GridIndex::new(0, 0)), Some(TileState::Blocked));
    assert_eq!(states.get(&GridIndex::new(-2, 1)), Some(TileState::Blocked));
    assert_eq!(states.get(&GridIndex::new(7, 7)), None);
}

#[test]
fn init_is_called_once_for_each_cell() {
    let columns = HexGridColumns(3);
    let rows = HexGridRows(2);
    let seen = std::cell::RefCell::new(Vec::new());
    let grid = HexHashGrid::from_rows_and_columns_with_init(&columns, &rows, |c| {
        seen.borrow_mut().push(c)
    });
    assert_eq!(seen.borrow().len(), 15);
    assert_eq!(seen.borrow()[0], GridIndex::new(-1, -1));
    assert_eq!(seen.borrow()[14], GridIndex::new(2, 1));
    assert!(grid.contains(&GridIndex::new(3, -1)));
    assert!(!grid.contains(&GridIndex::new(3, 0)));
    assert_eq!(grid.entry(GridIndex::new(3, -1)), Some(GridEntry::Empty));
}

#[test]
fn a_region_without_columns_is_empty() {
    let columns = HexGridColumns(-3);
    let rows = HexGridRows(2);
    let grid = HexHashGrid::from_rows_and_columns_with_init(&columns, &rows, |_| {});
    assert!(grid.keys().is_empty());
    let context = PathContext::from_args(&rows, &columns, &grid);
    assert!(context.all().is_empty());
    assert!(context.all_pathable().is_empty());
    assert!(!context.can_be_path(&GridIndex::new(0, 0)));
    assert_eq!(context.tile_state(GridIndex::new(0, 0), GridIndex::new(1, 0)).len(), 0);
    let no_rows = HexGridRows(-1);
    let context = PathContext::from_args(&no_rows, &HexGridColumns(3), &grid);
    assert!(context.all().is_empty());
}
