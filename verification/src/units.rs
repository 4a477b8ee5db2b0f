use vstd::prelude::*;

verus! {

/// Whether `x` is a usable row, column or box number.
pub open spec fn in_range(x: int) -> bool {
    1 <= x <= 9
}

/// Row-major offset of the cell at (`row`, `col`), both counted from 1.
pub open spec fn cell_index(row: int, col: int) -> int {
    (row - 1) * 9 + (col - 1)
}

/// Row of the cell at offset `index`, counted from 1.
pub open spec fn cell_row(index: int) -> int {
    index / 9 + 1
}

/// Column of the cell at offset `index`, counted from 1.
pub open spec fn cell_col(index: int) -> int {
    index % 9 + 1
}

/// Box that covers (`row`, `col`), counted from 0, left to right and then
/// top to bottom.
pub open spec fn box_id(row: int, col: int) -> int {
    ((row - 1) / 3) * 3 + (col - 1) / 3
}

/// Number of the box that covers the cell at offset `index`, counted from 1.
pub open spec fn cell_box(index: int) -> int {
    box_id(cell_row(index), cell_col(index)) + 1
}

/// Offset of the top-left cell of box `number`.
pub open spec fn box_origin(number: int) -> int {
    if number == 1 {
        0
    } else if number == 2 {
        3
    } else if number == 3 {
        6
    } else if number == 4 {
        27
    } else if number == 5 {
        30
    } else if number == 6 {
        33
    } else if number == 7 {
        54
    } else if number == 8 {
        57
    } else {
        60
    }
}

/// Offset of the `k`-th cell of box `number`, going through the box row by row.
pub open spec fn box_cell(number: int, k: int) -> int {
    box_origin(number) + 9 * (k / 3) + k % 3
}

/// The nine values of row `row`, left to right.
pub open spec fn row_values(cells: Seq<u8>, row: int) -> Seq<u8> {
    Seq::new(9, |k: int| cells[cell_index(row, k + 1)])
}

/// The nine values of column `col`, top to bottom.
pub open spec fn col_values(cells: Seq<u8>, col: int) -> Seq<u8> {
    Seq::new(9, |k: int| cells[cell_index(k + 1, col)])
}

/// The nine values of box `number`, row by row within the box.
pub open spec fn box_values(cells: Seq<u8>, number: int) -> Seq<u8> {
    Seq::new(9, |k: int| cells[box_cell(number, k)])
}

/// Every cell is empty or holds a digit from 1 to 9.
pub open spec fn all_digits(cells: Seq<u8>) -> bool {
    forall|i: int| 0 <= i < cells.len() ==> cells[i] <= 9
}

/// Two cells share a unit when they lie in the same row, column or box.
pub open spec fn same_unit(a: int, b: int) -> bool {
    cell_row(a) == cell_row(b) || cell_col(a) == cell_col(b) || cell_box(a) == cell_box(b)
}

/// No nonzero value occurs twice in `values`.
pub open spec fn distinct_digits(values: Seq<u8>) -> bool {
    forall|i: int, j: int|
        0 <= i < j < values.len() && values[i] != 0 ==> values[i] != values[j]
}

/// Every row, column and box of the grid is free of repeated digits.
pub open spec fn grid_valid(cells: Seq<u8>) -> bool {
    forall|n: int|
        1 <= n <= 9 ==> {
            &&& distinct_digits(#[trigger] row_values(cells, n))
            &&& distinct_digits(col_values(cells, n))
            &&& distinct_digits(box_values(cells, n))
        }
}

/// No two different cells that share a unit hold the same nonzero digit.
pub open spec fn no_conflict(cells: Seq<u8>) -> bool {
    forall|a: int, b: int|
        0 <= a < 81 && 0 <= b < 81 && a != b && #[trigger] same_unit(a, b) && cells[a] != 0
            ==> cells[a] != cells[b]
}

/// An offset, split into coordinates and joined again, is the same offset.
pub proof fn lemma_index_round_trip(index: int)
    requires
        0 <= index < 81,
    ensures
        in_range(cell_row(index)),
        in_range(cell_col(index)),
        cell_index(cell_row(index), cell_col(index)) == index,
{
}

/// Coordinates, joined into an offset and split again, are the same
/// coordinates.
pub proof fn lemma_coords_round_trip(row: int, col: int)
    requires
        in_range(row),
        in_range(col),
    ensures
        0 <= cell_index(row, col) < 81,
        cell_row(cell_index(row, col)) == row,
        cell_col(cell_index(row, col)) == col,
{
}

/// The origin table agrees with the box numbering: box `number` starts at
/// the first row and column of its band and stack.
pub proof fn lemma_box_origin(number: int)
    requires
        in_range(number),
    ensures
        box_origin(number) == ((number - 1) / 3) * 27 + ((number - 1) % 3) * 3,
        cell_box(box_origin(number)) == number,
{
}

/// Every cell of box `number` lies on the board and is covered by that box,
/// and every cell covered by it is one of its nine cells.
pub proof fn lemma_box_cells(number: int, k: int)
    requires
        in_range(number),
        0 <= k < 9,
    ensures
        0 <= box_cell(number, k) < 81,
        cell_box(box_cell(number, k)) == number,
        box_cell(number, k) == cell_index(
            ((number - 1) / 3) * 3 + k / 3 + 1,
            ((number - 1) % 3) * 3 + k % 3 + 1,
        ),
{
}

/// The position that a cell takes within its own box.
pub open spec fn box_slot(index: int) -> int {
    ((cell_row(index) - 1) % 3) * 3 + (cell_col(index) - 1) % 3
}

/// A cell is found in its box at its slot.
pub proof fn lemma_box_slot(index: int)
    requires
        0 <= index < 81,
    ensures
        in_range(cell_box(index)),
        0 <= box_slot(index) < 9,
        box_cell(cell_box(index), box_slot(index)) == index,
{
}

/// The value at (`row`, `col`) is the one that its row holds at the column's
/// place, and the one that its column holds at the row's place.
pub proof fn lemma_row_col_match_cell(cells: Seq<u8>, row: int, col: int)
    requires
        in_range(row),
        in_range(col),
    ensures
        row_values(cells, row)[col - 1] == cells[cell_index(row, col)],
        col_values(cells, col)[row - 1] == cells[cell_index(row, col)],
{
}

/// A box holds, row by row, the 3x3 block of cells that starts at its origin.
pub proof fn lemma_box_matches_origin(cells: Seq<u8>, number: int, down: int, right: int)
    requires
        in_range(number),
        0 <= down < 3,
        0 <= right < 3,
    ensures
        box_values(cells, number)[down * 3 + right] == cells[box_origin(number) + 9 * down
            + right],
{
}

/// The value at (`row`, `col`) is the one that its box holds at the cell's
/// slot.
pub proof fn lemma_box_matches_cell(cells: Seq<u8>, row: int, col: int)
    requires
        in_range(row),
        in_range(col),
    ensures
        in_range(box_id(row, col) + 1),
        box_values(cells, box_id(row, col) + 1)[((row - 1) % 3) * 3 + (col - 1) % 3]
            == cells[cell_index(row, col)],
{
    lemma_box_slot(cell_index(row, col));
}

/// Two different positions of a sequence without repeated digits hold
/// different values, unless both are empty.
proof fn lemma_distinct_at(values: Seq<u8>, i: int, j: int)
    requires
        distinct_digits(values),
        0 <= i < values.len(),
        0 <= j < values.len(),
        i != j,
        values[i] != 0,
    ensures
        values[i] != values[j],
{
    if j < i && values[j] == values[i] {
        assert(values[j] != values[i]);
    }
}

proof fn lemma_no_conflict_pair(cells: Seq<u8>, a: int, b: int)
    requires
        grid_valid(cells),
        0 <= a < 81,
        0 <= b < 81,
        a != b,
        same_unit(a, b),
        cells[a] != 0,
    ensures
        cells[a] != cells[b],
{
    if cell_row(a) == cell_row(b) {
        let values = row_values(cells, cell_row(a));
        assert(values[cell_col(a) - 1] == cells[a]);
        assert(values[cell_col(b) - 1] == cells[b]);
        lemma_distinct_at(values, cell_col(a) - 1, cell_col(b) - 1);
    } else if cell_col(a) == cell_col(b) {
        let values = col_values(cells, cell_col(a));
        assert(distinct_digits(row_values(cells, cell_col(a))));
        assert(values[cell_row(a) - 1] == cells[a]);
        assert(values[cell_row(b) - 1] == cells[b]);
        lemma_distinct_at(values, cell_row(a) - 1, cell_row(b) - 1);
    } else {
        let values = box_values(cells, cell_box(a));
        assert(distinct_digits(row_values(cells, cell_box(a))));
        lemma_box_slot(a);
        lemma_box_slot(b);
        assert(values[box_slot(a)] == cells[a]);
        assert(values[box_slot(b)] == cells[b]);
        lemma_distinct_at(values, box_slot(a), box_slot(b));
    }
}

/// A grid has no repeated digit in any row, column or box exactly when no two
/// different cells that share a unit hold the same nonzero digit.
pub proof fn lemma_valid_iff_no_conflict(cells: Seq<u8>)
    ensures
        grid_valid(cells) <==> no_conflict(cells),
{
    if grid_valid(cells) {
        assert forall|a: int, b: int|
            0 <= a < 81 && 0 <= b < 81 && a != b && #[trigger] same_unit(a, b) && cells[a] != 0
            implies cells[a] != cells[b] by {
            lemma_no_conflict_pair(cells, a, b);
        }
    }
    if no_conflict(cells) {
        assert forall|n: int| 1 <= n <= 9 implies {
            &&& distinct_digits(#[trigger] row_values(cells, n))
            &&& distinct_digits(col_values(cells, n))
            &&& distinct_digits(box_values(cells, n))
        } by {
            assert forall|i: int, j: int|
                0 <= i < j < 9 && row_values(cells, n)[i] != 0
                implies row_values(cells, n)[i] != row_values(cells, n)[j] by {
                assert(same_unit(cell_index(n, i + 1), cell_index(n, j + 1)));
            }
            assert forall|i: int, j: int|
                0 <= i < j < 9 && col_values(cells, n)[i] != 0
                implies col_values(cells, n)[i] != col_values(cells, n)[j] by {
                assert(same_unit(cell_index(i + 1, n), cell_index(j + 1, n)));
            }
            assert forall|i: int, j: int|
                0 <= i < j < 9 && box_values(cells, n)[i] != 0
                implies box_values(cells, n)[i] != box_values(cells, n)[j] by {
                lemma_box_cells(n, i);
                lemma_box_cells(n, j);
                assert(same_unit(box_cell(n, i), box_cell(n, j)));
            }
        }
    }
}

/// A grid without any digit is valid.
pub proof fn lemma_empty_grid_valid(cells: Seq<u8>)
    requires
        cells.len() == 81,
        forall|i: int| 0 <= i < 81 ==> cells[i] == 0,
    ensures
        grid_valid(cells),
{
    lemma_valid_iff_no_conflict(cells);
}

/// A digit that stands in two different cells of one unit makes the grid
/// invalid.
pub proof fn lemma_duplicate_invalid(cells: Seq<u8>, a: int, b: int)
    requires
        0 <= a < 81,
        0 <= b < 81,
        a != b,
        same_unit(a, b),
        cells[a] != 0,
        cells[a] == cells[b],
    ensures
        !grid_valid(cells),
{
    lemma_valid_iff_no_conflict(cells);
}

} // verus!
