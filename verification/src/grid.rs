//! The axial coordinate model: cells, neighbour directions and the staggered
//! region they live in.

use std::ops::{Add, Div, Mul, Sub};
use vstd::prelude::*;
use vstd::std_specs::ops::{AddSpecImpl, DivSpecImpl, MulSpecImpl, SubSpecImpl};

use bevy::platform::collections::{HashMap, HashSet};

use crate::path::context::CellMap;
use crate::path::HexPath;
use crate::store::{
    map_get, map_insert, map_remove, new_occupant_map, occupants, occupants_add,
    occupants_at, occupants_remove, Entries,
};

verus! {

/// One hexagonal cell, addressed by its axial coordinates.
#[derive(Debug, PartialEq, Eq, Clone, Copy, Hash, Structural)]
pub struct GridIndex {
    pub q: i32,
    pub r: i32,
}

/// Whether `v` can be held in an `i32`.
pub open spec fn fits_i32(v: int) -> bool {
    i32::MIN <= v <= i32::MAX
}

impl GridIndex {
    /// The cell at the axial coordinates `q` and `r`.
    pub fn new(q: i32, r: i32) -> (s: Self)
        ensures
            s == (GridIndex { q, r }),
    {
        Self { q, r }
    }

    /// The cell as a plain pair.
    pub open spec fn key(self) -> (i32, i32) {
        (self.q, self.r)
    }

    /// The cell reached from `self` by the offset `d`, where it exists in
    /// the representable part of the lattice.
    pub open spec fn offset_by(self, d: GridIndex) -> Option<GridIndex> {
        if fits_i32(self.q + d.q) && fits_i32(self.r + d.r) {
            Some(GridIndex { q: (self.q + d.q) as i32, r: (self.r + d.r) as i32 })
        } else {
            None
        }
    }

    /// Component-wise sum, or `None` where a component leaves the `i32` range.
    pub fn checked_add(self, d: GridIndex) -> (s: Option<GridIndex>)
        ensures
            s == self.offset_by(d),
    {
        match (self.q.checked_add(d.q), self.r.checked_add(d.r)) {
            (Some(q), Some(r)) => Some(GridIndex { q, r }),
            _ => None,
        }
    }
}

impl Add for GridIndex {
    type Output = GridIndex;

    fn add(self, rhs: Self) -> (s: GridIndex) {
        GridIndex { q: self.q + rhs.q, r: self.r + rhs.r }
    }
}

impl AddSpecImpl for GridIndex {
    open spec fn obeys_add_spec() -> bool {
        true
    }

    open spec fn add_req(self, rhs: Self) -> bool {
        fits_i32(self.q + rhs.q) && fits_i32(self.r + rhs.r)
    }

    open spec fn add_spec(self, rhs: Self) -> GridIndex {
        GridIndex { q: (self.q + rhs.q) as i32, r: (self.r + rhs.r) as i32 }
    }
}

impl Sub for GridIndex {
    type Output = GridIndex;

    fn sub(self, rhs: Self) -> (s: GridIndex) {
        GridIndex { q: self.q - rhs.q, r: self.r - rhs.r }
    }
}

impl SubSpecImpl for GridIndex {
    open spec fn obeys_sub_spec() -> bool {
        true
    }

    open spec fn sub_req(self, rhs: Self) -> bool {
        fits_i32(self.q - rhs.q) && fits_i32(self.r - rhs.r)
    }

    open spec fn sub_spec(self, rhs: Self) -> GridIndex {
        GridIndex { q: (self.q - rhs.q) as i32, r: (self.r - rhs.r) as i32 }
    }
}

impl Mul<i32> for GridIndex {
    type Output = GridIndex;

    fn mul(self, rhs: i32) -> (s: GridIndex) {
        GridIndex { q: self.q * rhs, r: self.r * rhs }
    }
}

impl MulSpecImpl<i32> for GridIndex {
    open spec fn obeys_mul_spec() -> bool {
        true
    }

    open spec fn mul_req(self, rhs: i32) -> bool {
        fits_i32(self.q * rhs) && fits_i32(self.r * rhs)
    }

    open spec fn mul_spec(self, rhs: i32) -> GridIndex {
        GridIndex { q: (self.q * rhs) as i32, r: (self.r * rhs) as i32 }
    }
}

/// A map keyed by plain coordinate pairs, read as a map keyed by cells.
pub open spec fn by_cell<V>(m: Map<(i32, i32), V>) -> Map<GridIndex, V> {
    Map::new(|i: GridIndex| m.contains_key(i.key()), |i: GridIndex| m[i.key()])
}

/// Reading by cell commutes with insertion.
pub proof fn lemma_by_cell_insert<V>(m: Map<(i32, i32), V>, i: GridIndex, v: V)
    ensures
        by_cell(m.insert(i.key(), v)) == by_cell(m).insert(i, v),
{
    assert forall|j: GridIndex| j.key() == i.key() implies j == i by {}
    assert(by_cell(m.insert(i.key(), v)) =~= by_cell(m).insert(i, v));
}

/// Reading by cell commutes with removal.
pub proof fn lemma_by_cell_remove<V>(m: Map<(i32, i32), V>, i: GridIndex)
    ensures
        by_cell(m.remove(i.key())) == by_cell(m).remove(i),
{
    assert forall|j: GridIndex| j.key() == i.key() implies j == i by {}
    assert(by_cell(m.remove(i.key())) =~= by_cell(m).remove(i));
}

/// Reading by cell keeps the number of keys.
pub proof fn lemma_by_cell_size<V>(m: Map<(i32, i32), V>)
    requires
        m.dom().finite(),
    ensures
        by_cell(m).dom().finite(),
        by_cell(m).dom().len() == m.dom().len(),
{
    let f = |k: (i32, i32)| GridIndex { q: k.0, r: k.1 };
    assert(vstd::relations::injective_on(f, m.dom())) by {
        assert forall|a: (i32, i32), b: (i32, i32)| #[trigger] f(a) == #[trigger] f(b) implies a
            == b by {
            assert(f(a).q == a.0 && f(a).r == a.1);
            assert(f(b).q == b.0 && f(b).r == b.1);
        }
    }
    assert(m.dom().map(f) =~= by_cell(m).dom()) by {
        assert forall|i: GridIndex| m.dom().map(f).contains(i) <==> by_cell(m).dom().contains(
            i,
        ) by {
            if by_cell(m).dom().contains(i) {
                assert(m.dom().contains(i.key()));
                assert(f(i.key()) == i);
            }
        }
    }
    vstd::set_lib::lemma_map_size(m.dom(), by_cell(m).dom(), f);
}

/// What occupies a cell of the playing field.
#[derive(Debug, Clone, Copy, PartialEq, Eq, Hash, Structural)]
pub enum GridEntry {
    Empty,
    Tower,
    Path,
    PathStart,
    PathEnd,
}

/// How a cell is shown.
#[derive(Debug, Clone, Copy, PartialEq, Eq, Hash, Structural)]
pub enum GridEntryState {
    Highlight,
    Normal,
}

/// Integer division that rounds toward zero, as the machine's does: the
/// Euclidean quotient where the dividend is not negative, and the negated
/// quotient of the negated dividend where it is.
pub open spec fn div_toward_zero(a: int, b: int) -> int
    recommends
        b != 0,
{
    if a >= 0 {
        a / b
    } else {
        -((-a) / b)
    }
}

impl Div<i32> for GridIndex {
    type Output = GridIndex;

    fn div(self, rhs: i32) -> (s: GridIndex) {
        GridIndex { q: self.q / rhs, r: self.r / rhs }
    }
}

impl DivSpecImpl<i32> for GridIndex {
    open spec fn obeys_div_spec() -> bool {
        true
    }

    open spec fn div_req(self, rhs: i32) -> bool {
        rhs != 0 && fits_i32(div_toward_zero(self.q as int, rhs as int)) && fits_i32(
            div_toward_zero(self.r as int, rhs as int),
        )
    }

    open spec fn div_spec(self, rhs: i32) -> GridIndex {
        GridIndex {
            q: div_toward_zero(self.q as int, rhs as int) as i32,
            r: div_toward_zero(self.r as int, rhs as int) as i32,
        }
    }
}

/// The six directions in which a cell has neighbours.
#[derive(Debug, Clone, Copy, PartialEq, Eq, Hash, Structural)]
pub enum GridDirections {
    Right,
    Left,
    TopLeft,
    TopRight,
    BottomLeft,
    BottomRight,
}

impl GridDirections {
    /// The offset from a cell to its neighbour in this direction.
    pub open spec fn offset(self) -> GridIndex {
        match self {
            GridDirections::Right => GridIndex { q: 1, r: 0 },
            GridDirections::Left => GridIndex { q: -1i32, r: 0 },
            GridDirections::TopLeft => GridIndex { q: -1i32, r: 1 },
            GridDirections::TopRight => GridIndex { q: 0, r: 1 },
            GridDirections::BottomLeft => GridIndex { q: 0, r: -1i32 },
            GridDirections::BottomRight => GridIndex { q: 1, r: -1i32 },
        }
    }

    /// The six offsets, in the order of the directions.
    pub open spec fn offsets() -> Seq<GridIndex> {
        seq![
            GridDirections::Right.offset(),
            GridDirections::Left.offset(),
            GridDirections::TopLeft.offset(),
            GridDirections::TopRight.offset(),
            GridDirections::BottomLeft.offset(),
            GridDirections::BottomRight.offset(),
        ]
    }

    /// The offset from a cell to its neighbour in this direction.
    pub fn get(&self) -> (d: GridIndex)
        ensures
            d == self.offset(),
    {
        match self {
            GridDirections::Right => GridIndex { q: 1, r: 0 },
            GridDirections::Left => GridIndex { q: -1, r: 0 },
            GridDirections::TopLeft => GridIndex { q: -1, r: 1 },
            GridDirections::TopRight => GridIndex { q: 0, r: 1 },
            GridDirections::BottomLeft => GridIndex { q: 0, r: -1 },
            GridDirections::BottomRight => GridIndex { q: 1, r: -1 },
        }
    }

    /// The six directions.
    pub fn variants() -> (all: Vec<GridDirections>)
        ensures
            all@ == seq![
                GridDirections::Right,
                GridDirections::Left,
                GridDirections::TopLeft,
                GridDirections::TopRight,
                GridDirections::BottomLeft,
                GridDirections::BottomRight,
            ],
    {
        let mut all: Vec<GridDirections> = Vec::new();
        all.push(GridDirections::Right);
        all.push(GridDirections::Left);
        all.push(GridDirections::TopLeft);
        all.push(GridDirections::TopRight);
        all.push(GridDirections::BottomLeft);
        all.push(GridDirections::BottomRight);
        assert(all@ =~= seq![
            GridDirections::Right,
            GridDirections::Left,
            GridDirections::TopLeft,
            GridDirections::TopRight,
            GridDirections::BottomLeft,
            GridDirections::BottomRight,
        ]);
        all
    }

    /// The offsets of the six directions.
    pub fn all_offsets() -> (all: Vec<GridIndex>)
        ensures
            all@ == Self::offsets(),
    {
        let mut all: Vec<GridIndex> = Vec::new();
        all.push(GridDirections::Right.get());
        all.push(GridDirections::Left.get());
        all.push(GridDirections::TopLeft.get());
        all.push(GridDirections::TopRight.get());
        all.push(GridDirections::BottomLeft.get());
        all.push(GridDirections::BottomRight.get());
        assert(all@ =~= Self::offsets());
        all
    }
}

/// A run of consecutive integers, both ends included; empty where the
/// start lies above the end.
#[derive(Debug, Clone, Copy, PartialEq, Eq, Structural)]
pub struct CellRange {
    pub start: i32,
    pub end: i32,
}

impl CellRange {
    /// Whether `v` lies in the range.
    pub open spec fn holds(self, v: int) -> bool {
        self.start <= v <= self.end
    }

    /// Whether `v` lies in the range.
    pub fn contains(&self, v: i32) -> (inside: bool)
        ensures
            inside == self.holds(v as int),
    {
        self.start <= v && v <= self.end
    }
}

/// The column that lies furthest from the middle, for a count of `columns`.
pub open spec fn outer_column(columns: int) -> int {
    div_toward_zero(columns, 2)
}

/// By how much the rows of `column` are shifted against those of the middle
/// column: the staggering of the layout.
pub open spec fn row_shift(column: int) -> int {
    -(column / 2)
}

/// Whether the row range of `column` can be held in `i32`, for a count of
/// `rows`.
pub open spec fn rows_fit(rows: int, column: int) -> bool {
    fits_i32(-rows + row_shift(column)) && fits_i32(rows + row_shift(column))
}

/// Whether `cell` lies in the region of `columns` by `rows`.
pub open spec fn in_region(cell: GridIndex, columns: int, rows: int) -> bool {
    &&& -outer_column(columns) <= cell.r <= outer_column(columns)
    &&& -rows + row_shift(cell.r as int) <= cell.q <= rows + row_shift(cell.r as int)
}

/// The number of columns of the playing field.
#[derive(Debug, Clone, Copy)]
pub struct HexGridColumns(pub i32);

impl HexGridColumns {
    /// The columns of the region: from the outermost on one side to the
    /// outermost on the other.
    pub fn get_actual_column_count(&self) -> (range: CellRange)
        requires
            self.0 > i32::MIN,
        ensures
            range.start == -outer_column(self.0 as int),
            range.end == outer_column(self.0 as int),
    {
        CellRange { start: -self.0 / 2, end: self.0 / 2 }
    }
}

/// The number of rows of the playing field to either side of the middle.
#[derive(Debug, Clone, Copy)]
pub struct HexGridRows(pub i32);

impl HexGridRows {
    /// The rows of `column`: the count to either side of the column's shift.
    pub fn get_actual_row_count(&self, column: i32) -> (range: CellRange)
        requires
            rows_fit(self.0 as int, column as int),
        ensures
            range.start == -self.0 + row_shift(column as int),
            range.end == self.0 + row_shift(column as int),
    {
        let shift: i64 = if column >= 0 {
            -((column / 2) as i64)
        } else {
            ((-((column as i64) + 1)) / 2) + 1
        };
        let rows = self.0 as i64;
        CellRange { start: (-rows + shift) as i32, end: (rows + shift) as i32 }
    }
}

/// What a sequence contains after one more element was appended.
pub proof fn lemma_push_contains<T>(s: Seq<T>, x: T)
    ensures
        forall|c: T| s.push(x).contains(c) <==> s.contains(c) || c == x,
{
    assert forall|c: T| s.push(x).contains(c) <==> s.contains(c) || c == x by {
        if s.contains(c) {
            let i = choose|i: int| 0 <= i < s.len() && s[i] == c;
            assert(s.push(x)[i] == c);
        }
        if c == x {
            assert(s.push(x)[s.len() as int] == x);
        }
    }
}

/// What the first `i + 1` elements of a sequence contain, by what the
/// first `i` contain.
pub proof fn lemma_take_next_contains<T>(s: Seq<T>, i: int, c: T)
    requires
        0 <= i < s.len(),
    ensures
        s.take(i + 1).contains(c) <==> s.take(i).contains(c) || c == s[i],
{
    assert(s.take(i + 1) =~= s.take(i).push(s[i]));
    lemma_push_contains(s.take(i), s[i]);
}

/// Whether every row range of the region of `columns` by `rows` can be held
/// in `i32`.
pub open spec fn region_fits(columns: int, rows: int) -> bool {
    &&& columns > i32::MIN
    &&& forall|c: int|
        -outer_column(columns) <= c <= outer_column(columns) ==> #[trigger] rows_fit(rows, c)
}

/// Whether every row range of the region of `columns` by `rows` can be
/// held in `i32`: the test to make before the region is walked.
pub fn fits_region(columns: &HexGridColumns, rows: &HexGridRows) -> (fits: bool)
    ensures
        fits == region_fits(columns.0 as int, rows.0 as int),
{
    if columns.0 == i32::MIN {
        return false;
    }
    let outer: i64 = (columns.0 / 2) as i64;
    if outer < 0 {
        return true;
    }
    let low: i64 = -(outer / 2);
    let high: i64 = (outer + 1) / 2;
    let count: i64 = rows.0 as i64;
    let least: i64 = i32::MIN as i64;
    let most: i64 = i32::MAX as i64;
    let fits = least <= -count + low && -count + high <= most && least <= count + low && count
        + high <= most;
    proof {
        assert(outer == outer_column(columns.0 as int));
        assert(row_shift(outer as int) == low);
        assert(row_shift(-outer as int) == high);
        if fits {
            assert forall|c: int| -outer <= c <= outer implies #[trigger] rows_fit(
                rows.0 as int,
                c,
            ) by {
                assert(low <= row_shift(c) <= high);
            }
        } else {
            assert(!rows_fit(rows.0 as int, outer as int) || !rows_fit(
                rows.0 as int,
                -outer as int,
            ));
        }
    }
    fits
}

/// The order in which the cells of a region are listed: column by column,
/// and within a column by row.
pub open spec fn listed_before(a: GridIndex, b: GridIndex) -> bool {
    a.r < b.r || (a.r == b.r && a.q < b.q)
}

/// The cells of the region of `columns` by `rows`, column by column.
pub fn region_cells(columns: &HexGridColumns, rows: &HexGridRows) -> (cells: Vec<GridIndex>)
    requires
        region_fits(columns.0 as int, rows.0 as int),
    ensures
        forall|c: GridIndex| cells@.contains(c) <==> in_region(c, columns.0 as int, rows.0 as int),
        forall|i: int, j: int|
            0 <= i < j < cells.len() ==> listed_before(#[trigger] cells@[i], #[trigger] cells@[j]),
{
    let across = columns.get_actual_column_count();
    let mut cells: Vec<GridIndex> = Vec::new();
    let mut r: i64 = across.start as i64;
    while r <= across.end as i64
        invariant
            region_fits(columns.0 as int, rows.0 as int),
            across.start == -outer_column(columns.0 as int),
            across.end == outer_column(columns.0 as int),
            across.start <= r <= across.end + 1 || (across.start > across.end && r == across.start),
            forall|c: GridIndex|
                cells@.contains(c) <==> in_region(c, columns.0 as int, rows.0 as int) && c.r < r,
            forall|i: int, j: int|
                0 <= i < j < cells.len() ==> listed_before(
                    #[trigger] cells@[i],
                    #[trigger] cells@[j],
                ),
        decreases across.end + 1 - r,
    {
        let column = r as i32;
        assert(rows_fit(rows.0 as int, column as int));
        let along = rows.get_actual_row_count(column);
        let mut q: i64 = along.start as i64;
        while q <= along.end as i64
            invariant
                column == r,
                across.start <= r <= across.end,
                across.start == -outer_column(columns.0 as int),
                across.end == outer_column(columns.0 as int),
                along.start == -rows.0 + row_shift(column as int),
                along.end == rows.0 + row_shift(column as int),
                along.start <= q <= along.end + 1 || (along.start > along.end && q == along.start),
                forall|c: GridIndex|
                    cells@.contains(c) <==> in_region(c, columns.0 as int, rows.0 as int) && (c.r
                        < r || (c.r == r && c.q < q)),
                forall|i: int, j: int|
                    0 <= i < j < cells.len() ==> listed_before(
                        #[trigger] cells@[i],
                        #[trigger] cells@[j],
                    ),
            decreases along.end + 1 - q,
        {
            let cell = GridIndex { q: q as i32, r: column };
            proof {
                lemma_push_contains(cells@, cell);
                assert forall|i: int| 0 <= i < cells.len() implies listed_before(
                    #[trigger] cells@[i],
                    cell,
                ) by {
                    assert(cells@.contains(cells@[i]));
                }
            }
            let ghost before = cells@;
            cells.push(cell);
            proof {
                assert(cells@ == before.push(cell));
                assert(in_region(cell, columns.0 as int, rows.0 as int));
                assert forall|c: GridIndex|
                    cells@.contains(c) <==> in_region(c, columns.0 as int, rows.0 as int) && (c.r
                        < r || (c.r == r && c.q < q + 1)) by {
                    assert(cells@.contains(c) <==> before.contains(c) || c == cell);
                    assert(before.contains(c) <==> in_region(c, columns.0 as int, rows.0 as int)
                        && (c.r < r || (c.r == r && c.q < q)));
                    if c.r == r && c.q == q {
                        assert(c == cell);
                    }
                }
            }
            q += 1;
        }
        r += 1;
    }
    cells
}

/// A cell together with how it is shown.
#[derive(Debug, Clone, Copy, PartialEq, Eq, Hash, Structural)]
pub struct HexGridEntryState(pub GridEntry, pub GridEntryState);

impl From<(GridEntry, GridEntryState)> for HexGridEntryState {
    fn from(value: (GridEntry, GridEntryState)) -> (state: Self) {
        Self(value.0, value.1)
    }
}

impl vstd::std_specs::convert::FromSpecImpl<(GridEntry, GridEntryState)> for HexGridEntryState {
    open spec fn obeys_from_spec() -> bool {
        true
    }

    open spec fn from_spec(value: (GridEntry, GridEntryState)) -> Self {
        HexGridEntryState(value.0, value.1)
    }
}

/// What a cell of a route is entered as: its start, its end, or a cell in
/// between.
pub open spec fn path_entry(start: GridIndex, end: GridIndex, c: GridIndex) -> GridEntry {
    if c == start {
        GridEntry::PathStart
    } else if c == end {
        GridEntry::PathEnd
    } else {
        GridEntry::Path
    }
}

/// An entry with the marks of a route taken off.
pub open spec fn without_path(entry: GridEntry) -> GridEntry {
    match entry {
        GridEntry::Path | GridEntry::PathStart | GridEntry::PathEnd => GridEntry::Empty,
        other => other,
    }
}

/// Whether a route may lead over a cell that holds `entry`.
pub open spec fn entry_can_be_path(entry: GridEntry) -> bool {
    entry == GridEntry::Empty || entry == GridEntry::Path
}

/// What stands on each cell of the playing field.
pub struct HexHashGrid {
    data: CellMap<GridEntry>,
}

impl HexHashGrid {
    /// The entry of every cell that has one.
    pub closed spec fn view(&self) -> Map<GridIndex, GridEntry> {
        self.data@
    }

    /// A grid without entries.
    pub fn new() -> (grid: Self)
        ensures
            grid@ == Map::<GridIndex, GridEntry>::empty(),
    {
        Self { data: CellMap::new() }
    }

    /// The grid that holds the cells of `path` and nothing else.
    pub fn from_path(path: &HexPath<GridIndex>) -> (grid: Self)
        ensures
            forall|c: GridIndex| grid@.contains_key(c) <==> path.nodes@.contains(c),
            forall|c: GridIndex|
                grid@.contains_key(c) ==> #[trigger] grid@[c] == path_entry(path.start, path.end, c),
    {
        let mut grid = Self::new();
        let mut i: usize = 0;
        while i < path.nodes.len()
            invariant
                i <= path.nodes.len(),
                forall|c: GridIndex|
                    grid@.contains_key(c) <==> path.nodes@.take(i as int).contains(c),
                forall|c: GridIndex|
                    grid@.contains_key(c) ==> #[trigger] grid@[c] == path_entry(
                        path.start,
                        path.end,
                        c,
                    ),
            decreases path.nodes.len() - i,
        {
            let a = path.nodes[i];
            let entry = if a == path.start {
                GridEntry::PathStart
            } else if a == path.end {
                GridEntry::PathEnd
            } else {
                GridEntry::Path
            };
            let ghost before = grid@;
            grid.data.insert(&a, entry);
            proof {
                assert(grid@ == before.insert(a, entry));
                assert forall|c: GridIndex|
                    grid@.contains_key(c) <==> path.nodes@.take(i + 1).contains(c) by {
                    lemma_take_next_contains(path.nodes@, i as int, c);
                }
            }
            i += 1;
        }
        assert(path.nodes@.take(path.nodes.len() as int) =~= path.nodes@);
        grid
    }

    /// Whether `index` has an entry.
    pub fn contains(&self, index: &GridIndex) -> (held: bool)
        ensures
            held == self@.contains_key(*index),
    {
        self.data.get(index).is_some()
    }

    /// The entry of `index`, where it has one.
    pub fn entry(&self, index: GridIndex) -> (found: Option<GridEntry>)
        ensures
            found == (if self@.contains_key(index) {
                Some(self@[index])
            } else {
                None
            }),
    {
        self.data.get(&index)
    }

    /// Every cell that has an entry, once.
    pub fn keys(&self) -> (cells: Vec<GridIndex>)
        ensures
            cells@.no_duplicates(),
            forall|c: GridIndex| cells@.contains(c) <==> self@.contains_key(c),
    {
        self.data.keys()
    }

    /// Whether a route may lead over `a`: the cell has an entry, and it is
    /// empty or already part of a route.
    pub fn can_be_path(&self, a: &GridIndex) -> (ok: bool)
        ensures
            ok == (self@.contains_key(*a) && entry_can_be_path(self@[*a])),
    {
        match self.data.get(a) {
            Some(GridEntry::Empty) => true,
            Some(GridEntry::Path) => true,
            _ => false,
        }
    }

    /// Enters `entry` for `key`, whether or not `key` had an entry.
    pub fn set_entry(&mut self, key: GridIndex, entry: GridEntry)
        ensures
            final(self)@ == old(self)@.insert(key, entry),
    {
        self.data.insert(&key, entry);
    }

    /// Takes the marks of a route off every cell.
    pub fn clear_path(&mut self)
        ensures
            forall|c: GridIndex| final(self)@.contains_key(c) <==> old(self)@.contains_key(c),
            forall|c: GridIndex|
                old(self)@.contains_key(c) ==> #[trigger] final(self)@[c] == without_path(
                    old(self)@[c],
                ),
    {
        let cells = self.data.keys();
        let mut i: usize = 0;
        while i < cells.len()
            invariant
                i <= cells.len(),
                cells@.no_duplicates(),
                forall|c: GridIndex| cells@.contains(c) <==> old(self)@.contains_key(c),
                forall|c: GridIndex| self@.contains_key(c) <==> old(self)@.contains_key(c),
                forall|j: int|
                    0 <= j < i ==> self@[#[trigger] cells@[j]] == without_path(
                        old(self)@[cells@[j]],
                    ),
                forall|j: int|
                    i <= j < cells.len() ==> self@[#[trigger] cells@[j]] == old(self)@[cells@[j]],
            decreases cells.len() - i,
        {
            let c = cells[i];
            assert(cells@.contains(c));
            match self.data.get(&c) {
                Some(GridEntry::Path) | Some(GridEntry::PathStart) | Some(GridEntry::PathEnd) => {
                    self.data.insert(&c, GridEntry::Empty);
                },
                _ => {},
            }
            i += 1;
        }
        assert forall|c: GridIndex| old(self)@.contains_key(c) implies #[trigger] self@[c]
            == without_path(old(self)@[c]) by {
            assert(cells@.contains(c));
            let j = choose|j: int| 0 <= j < cells.len() && cells@[j] == c;
            assert(self@[cells@[j]] == without_path(old(self)@[cells@[j]]));
        }
    }

    /// The grid of the region of `columns` by `rows`, every cell empty.
    /// `on_entry` is called once for each cell, in the order in which the
    /// cells are listed.
    pub fn from_rows_and_columns_with_init<F: Fn(GridIndex)>(
        columns: &HexGridColumns,
        rows: &HexGridRows,
        on_entry: F,
    ) -> (grid: Self)
        requires
            region_fits(columns.0 as int, rows.0 as int),
            forall|c: GridIndex| on_entry.requires((c,)),
        ensures
            forall|c: GridIndex|
                grid@.contains_key(c) <==> in_region(c, columns.0 as int, rows.0 as int),
            forall|c: GridIndex| grid@.contains_key(c) ==> #[trigger] grid@[c] == GridEntry::Empty,
    {
        let cells = region_cells(columns, rows);
        let mut grid = Self::new();
        let mut i: usize = 0;
        while i < cells.len()
            invariant
                i <= cells.len(),
                forall|c: GridIndex| on_entry.requires((c,)),
                forall|c: GridIndex| grid@.contains_key(c) <==> cells@.take(i as int).contains(c),
                forall|c: GridIndex|
                    grid@.contains_key(c) ==> #[trigger] grid@[c] == GridEntry::Empty,
            decreases cells.len() - i,
        {
            let coords = cells[i];
            on_entry(coords);
            let ghost before = grid@;
            grid.data.insert(&coords, GridEntry::Empty);
            proof {
                assert(grid@ == before.insert(coords, GridEntry::Empty));
                assert forall|c: GridIndex|
                    grid@.contains_key(c) <==> cells@.take(i + 1).contains(c) by {
                    lemma_take_next_contains(cells@, i as int, c);
                }
            }
            i += 1;
        }
        assert(cells@.take(cells.len() as int) =~= cells@);
        grid
    }
}

impl Default for HexHashGrid {
    fn default() -> (grid: Self)
        ensures
            grid@ == Map::<GridIndex, GridEntry>::empty(),
    {
        Self::new()
    }
}

/// Whether `b` is one of the six neighbours of `a`.
pub open spec fn is_neighbour(a: GridIndex, b: GridIndex) -> bool {
    exists|k: int| 0 <= k < 6 && a.offset_by(#[trigger] GridDirections::offsets()[k]) == Some(b)
}

/// Whether `cell` is `center` or its neighbour in one of the first `k`
/// directions.
pub open spec fn near_upto(center: GridIndex, cell: GridIndex, k: int) -> bool {
    cell == center || exists|j: int|
        0 <= j < k && center.offset_by(#[trigger] GridDirections::offsets()[j]) == Some(cell)
}

/// Whether `cell` is `center` or one of its six neighbours.
pub open spec fn is_near(center: GridIndex, cell: GridIndex) -> bool {
    near_upto(center, cell, 6)
}

/// One more direction adds the neighbour in that direction.
proof fn lemma_near_next(center: GridIndex, cell: GridIndex, k: int)
    requires
        0 <= k,
    ensures
        near_upto(center, cell, k + 1) <==> near_upto(center, cell, k) || center.offset_by(
            GridDirections::offsets()[k],
        ) == Some(cell),
{
    if near_upto(center, cell, k + 1) && cell != center {
        let j = choose|j: int|
            0 <= j < k + 1 && center.offset_by(#[trigger] GridDirections::offsets()[j]) == Some(
                cell,
            );
        if j < k {
            assert(near_upto(center, cell, k));
        }
    }
    if near_upto(center, cell, k) && cell != center {
        let j = choose|j: int|
            0 <= j < k && center.offset_by(#[trigger] GridDirections::offsets()[j]) == Some(cell);
        assert(0 <= j < k + 1);
    }
    if center.offset_by(GridDirections::offsets()[k]) == Some(cell) {
        assert(0 <= k < k + 1);
    }
}

/// Whether `forward` has `e` in the set of `cell`.
pub open spec fn in_cell(forward: Map<(i32, i32), Set<u64>>, cell: (i32, i32), e: u64) -> bool {
    forward.contains_key(cell) && forward[cell].contains(e)
}

/// Whether the sets of entities per cell and the cell per entity say the
/// same: an entity is in the set of a cell exactly when that cell is the
/// one recorded for it.
pub open spec fn mirrored(forward: Map<(i32, i32), Set<u64>>, reverse: Map<u64, GridIndex>) -> bool {
    forall|cell: (i32, i32), e: u64|
        #[trigger] in_cell(forward, cell, e) <==> (reverse.contains_key(e) && reverse[e].key()
            == cell)
}

/// Where the two maps mirror each other, no entity is in the sets of two
/// cells.
pub proof fn lemma_mirrored_in_one_cell(
    forward: Map<(i32, i32), Set<u64>>,
    reverse: Map<u64, GridIndex>,
    a: (i32, i32),
    b: (i32, i32),
    e: u64,
)
    requires
        mirrored(forward, reverse),
        in_cell(forward, a, e),
        in_cell(forward, b, e),
    ensures
        a == b,
{
}

/// An index of which entities are on which cell, for questions about what
/// is near a cell. Entities are known by their identifier.
pub struct HexSpatialGrid {
    data: HashMap<(i32, i32), HashSet<u64>>,
    entries: HashMap<u64, GridIndex>,
}

impl HexSpatialGrid {
    /// The cell recorded for each indexed entity.
    pub closed spec fn view(&self) -> Map<u64, GridIndex> {
        self.entries.entries()
    }

    /// The set of entities recorded for each cell that has one.
    pub closed spec fn by_cell(&self) -> Map<(i32, i32), Set<u64>> {
        occupants(self.data)
    }

    /// The two maps of the index mirror each other.
    pub open spec fn wf(&self) -> bool {
        mirrored(self.by_cell(), self@)
    }

    /// An index without entities.
    pub fn new() -> (grid: Self)
        ensures
            grid.wf(),
            grid@ == Map::<u64, GridIndex>::empty(),
    {
        let grid = HexSpatialGrid {
            data: new_occupant_map(),
            entries: HashMap::<u64, GridIndex>::fresh(),
        };
        assert(grid@ =~= Map::<u64, GridIndex>::empty());
        grid
    }

    /// Records `entity` on the cell `index`, taking it off the cell it was
    /// on before.
    pub fn update(&mut self, index: GridIndex, entity: u64)
        requires
            old(self).wf(),
        ensures
            final(self).wf(),
            final(self)@ == old(self)@.insert(entity, index),
    {
        let ghost f0 = self.by_cell();
        let ghost r0 = self@;
        match map_get(&self.entries, entity) {
            Some(held) => {
                assert(in_cell(f0, held.key(), entity));
                occupants_remove(&mut self.data, (held.q, held.r), entity);
            },
            None => {},
        }
        let ghost f1 = self.by_cell();
        proof {
            assert forall|cell: (i32, i32), e: u64| #[trigger]
                in_cell(f1, cell, e) <==> (e != entity && in_cell(f0, cell, e)) by {
                assert(in_cell(f0, cell, e) <==> r0.contains_key(e) && r0[e].key() == cell);
            }
        }
        map_insert(&mut self.entries, entity, index);
        occupants_add(&mut self.data, (index.q, index.r), entity);
        proof {
            let f2 = self.by_cell();
            let r1 = self@;
            assert forall|cell: (i32, i32), e: u64| #[trigger]
                in_cell(f2, cell, e) <==> (r1.contains_key(e) && r1[e].key() == cell) by {
                assert(in_cell(f1, cell, e) <==> (e != entity && in_cell(f0, cell, e)));
                assert(in_cell(f0, cell, e) <==> r0.contains_key(e) && r0[e].key() == cell);
            }
        }
    }

    /// Takes `entity` out of the index. Nothing happens where it is not
    /// indexed.
    pub fn remove(&mut self, entity: u64)
        requires
            old(self).wf(),
        ensures
            final(self).wf(),
            final(self)@ == old(self)@.remove(entity),
    {
        let ghost f0 = self.by_cell();
        let ghost r0 = self@;
        match map_remove(&mut self.entries, entity) {
            Some(position) => {
                assert(in_cell(f0, position.key(), entity));
                occupants_remove(&mut self.data, (position.q, position.r), entity);
            },
            None => {
                assert(self@ =~= r0.remove(entity));
            },
        }
        proof {
            let f1 = self.by_cell();
            let r1 = self@;
            assert forall|cell: (i32, i32), e: u64| #[trigger]
                in_cell(f1, cell, e) <==> (r1.contains_key(e) && r1[e].key() == cell) by {
                assert(in_cell(f0, cell, e) <==> r0.contains_key(e) && r0[e].key() == cell);
            }
        }
    }
}

impl HexSpatialGrid {
    /// Whether the index has `e` on `center` or on one of its neighbours.
    pub open spec fn has_near(&self, center: GridIndex, e: u64) -> bool {
        self@.contains_key(e) && is_near(center, self@[e])
    }

    /// The entities on `index` and on its six neighbours, each once.
    pub fn get_nearby(&mut self, index: &GridIndex) -> (found: Vec<u64>)
        requires
            old(self).wf(),
        ensures
            final(self).wf(),
            final(self)@ == old(self)@,
            found@.no_duplicates(),
            forall|e: u64| found@.contains(e) <==> old(self).has_near(*index, e),
    {
        let offsets = GridDirections::all_offsets();
        let ghost forward = self.by_cell();
        let ghost reverse = self@;
        let mut found = occupants_at(&self.data, (index.q, index.r));
        proof {
            assert forall|e: u64| found@.contains(e) <==> (reverse.contains_key(e) && near_upto(
                *index,
                reverse[e],
                0,
            )) by {
                assert(in_cell(forward, index.key(), e) <==> reverse.contains_key(e)
                    && reverse[e].key() == index.key());
            }
        }
        let mut k: usize = 0;
        while k < offsets.len()
            invariant
                k <= offsets.len(),
                offsets@ == GridDirections::offsets(),
                offsets.len() == 6,
                forward == self.by_cell(),
                reverse == self@,
                self@ == old(self)@,
                mirrored(forward, reverse),
                found@.no_duplicates(),
                forall|e: u64|
                    found@.contains(e) <==> (reverse.contains_key(e) && near_upto(
                        *index,
                        reverse[e],
                        k as int,
                    )),
            decreases offsets.len() - k,
        {
            let ghost before = found@;
            match index.checked_add(offsets[k]) {
                Some(cell) => {
                    let there = occupants_at(&self.data, (cell.q, cell.r));
                    proof {
                        assert forall|e: u64| #[trigger]
                            there@.contains(e) <==> (reverse.contains_key(e) && reverse[e]
                                == cell) by {
                            assert(in_cell(forward, cell.key(), e) <==> reverse.contains_key(e)
                                && reverse[e].key() == cell.key());
                        }
                        assert forall|i: int, j: int|
                            0 <= i < before.len() && 0 <= j < there.len() implies before[i]
                            != there@[j] by {
                            let e = there@[j];
                            assert(there@.contains(e));
                            if before[i] == e {
                                assert(before.contains(e));
                                assert(near_upto(*index, cell, k as int));
                                lemma_offsets_differ(*index, k as int);
                                let w = choose|w: int|
                                    0 <= w < k && index.offset_by(
                                        #[trigger] GridDirections::offsets()[w],
                                    ) == Some(cell);
                                assert(false);
                            }
                        }
                        vstd::seq_lib::lemma_no_dup_in_concat(before, there@);
                    }
                    let mut m: usize = 0;
                    while m < there.len()
                        invariant
                            m <= there.len(),
                            found@ == before + there@.take(m as int),
                            forall|e: u64| #[trigger]
                                there@.contains(e) <==> (reverse.contains_key(e) && reverse[e]
                                    == cell),
                        decreases there.len() - m,
                    {
                        found.push(there[m]);
                        assert(there@.take(m + 1) =~= there@.take(m as int).push(there@[m as int]));
                        assert(before + there@.take(m + 1) =~= (before + there@.take(
                            m as int,
                        )).push(there@[m as int]));
                        m += 1;
                    }
                    proof {
                        assert(there@.take(there.len() as int) =~= there@);
                        assert forall|e: u64|
                            found@.contains(e) <==> (reverse.contains_key(e) && near_upto(
                                *index,
                                reverse[e],
                                k + 1,
                            )) by {
                            if before.contains(e) {
                                let i = choose|i: int| 0 <= i < before.len() && before[i] == e;
                                assert(found@[i] == e);
                            }
                            if there@.contains(e) {
                                let j = choose|j: int| 0 <= j < there.len() && there@[j] == e;
                                assert(found@[before.len() + j] == e);
                            }
                            if found@.contains(e) {
                                let i = choose|i: int| 0 <= i < found.len() && found@[i] == e;
                                if i < before.len() {
                                    assert(before[i] == e);
                                } else {
                                    assert(there@[i - before.len()] == e);
                                }
                            }
                            if reverse.contains_key(e) {
                                lemma_near_next(*index, reverse[e], k as int);
                            }
                        }
                    }
                },
                None => {
                    proof {
                        assert forall|e: u64|
                            found@.contains(e) <==> (reverse.contains_key(e) && near_upto(
                                *index,
                                reverse[e],
                                k + 1,
                            )) by {
                            if reverse.contains_key(e) {
                                lemma_near_next(*index, reverse[e], k as int);
                            }
                        }
                    }
                },
            }
            k += 1;
        }
        found
    }
}

/// Asking twice for what is near a cell, with no change to the index in
/// between, gives the same entities: whatever two answers the index gives
/// on one state, they hold the same entities, and as many.
pub proof fn lemma_nearby_repeats(
    grid: HexSpatialGrid,
    index: GridIndex,
    first: Seq<u64>,
    second: Seq<u64>,
)
    requires
        first.no_duplicates(),
        second.no_duplicates(),
        forall|e: u64| first.contains(e) <==> grid.has_near(index, e),
        forall|e: u64| second.contains(e) <==> grid.has_near(index, e),
    ensures
        first.to_set() == second.to_set(),
        first.len() == second.len(),
{
    assert(first.to_set() =~= second.to_set());
    first.unique_seq_to_set();
    second.unique_seq_to_set();
}

/// The neighbours of a cell in two different directions differ from each
/// other and from the cell.
proof fn lemma_offsets_differ(center: GridIndex, k: int)
    requires
        0 <= k < 6,
    ensures
        center.offset_by(GridDirections::offsets()[k]) != Some(center),
        forall|j: int|
            0 <= j < k ==> center.offset_by(#[trigger] GridDirections::offsets()[j])
                != center.offset_by(GridDirections::offsets()[k]) || center.offset_by(
                GridDirections::offsets()[k],
            ) is None,
{
    let o = GridDirections::offsets();
    assert(o[0] == GridIndex { q: 1, r: 0 });
    assert(o[1] == GridIndex { q: -1i32, r: 0 });
    assert(o[2] == GridIndex { q: -1i32, r: 1 });
    assert(o[3] == GridIndex { q: 0, r: 1 });
    assert(o[4] == GridIndex { q: 0, r: -1i32 });
    assert(o[5] == GridIndex { q: 1, r: -1i32 });
}

impl Default for HexSpatialGrid {
    fn default() -> (grid: Self)
        ensures
            grid.wf(),
            grid@ == Map::<u64, GridIndex>::empty(),
    {
        Self::new()
    }
}

} // verus!
