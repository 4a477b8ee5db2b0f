use crate::notes::{lemma_note_bit_is_shift, note_bit};
use crate::units::{
    all_digits, box_origin, box_values, cell_col, cell_index, cell_row, col_values,
    distinct_digits, grid_valid, in_range, row_values,
};
use vstd::prelude::*;
use vstd::std_specs::convert::IntoSpec;

verus! {

/// A 9x9 grid of digits in row-major order; 0 marks an empty cell. Cells are
/// found by their offset, from 0 to 80, or by their row and column, each from
/// 1 to 9. The grid holds whatever bytes it is given: that they are digits is
/// for whoever fills it to see to.
#[derive(Debug, PartialEq, Clone, Copy)]
pub struct Numbers(pub [u8; 81]);

impl View for Numbers {
    type V = Seq<u8>;

    open spec fn view(&self) -> Seq<u8> {
        self.0@
    }
}

impl From<[u8; 81]> for Numbers {
    fn from(value: [u8; 81]) -> (numbers: Self) {
        Numbers(value)
    }
}

impl vstd::std_specs::convert::FromSpecImpl<[u8; 81]> for Numbers {
    open spec fn obeys_from_spec() -> bool {
        true
    }

    open spec fn from_spec(value: [u8; 81]) -> Self {
        Numbers(value)
    }
}

impl Numbers {
    /// The grid without any digit.
    pub fn empty() -> (numbers: Self)
        ensures
            numbers@ == Seq::new(81, |i: int| 0u8),
    {
        Numbers([0u8; 81])
    }

    /// All 81 values, handed out one at a time in row-major order.
    pub fn cells(&self) -> (cells: Cells<'_>)
        ensures
            cells@ == self@,
    {
        Cells { current_index: 0, values: &self.0 }
    }

    /// Writes `value` into the cell at (`row`, `col`).
    pub fn set(&mut self, row: usize, col: usize, value: u8)
        requires
            in_range(row as int),
            in_range(col as int),
        ensures
            final(self)@ == old(self)@.update(cell_index(row as int, col as int), value),
    {
        let index: usize = ((row - 1) * 9) + (col - 1);
        self.0[index] = value;
    }

    /// The value of the cell at (`row`, `col`).
    pub fn get(&self, row: usize, col: usize) -> (value: u8)
        requires
            in_range(row as int),
            in_range(col as int),
        ensures
            value == self@[cell_index(row as int, col as int)],
    {
        let index: usize = ((row - 1) * 9) + (col - 1);
        self.0[index]
    }

    /// The value of the cell at `offset`.
    pub fn get_by_offset(&self, offset: usize) -> (value: u8)
        requires
            offset < 81,
        ensures
            value == self@[offset as int],
    {
        self.0[offset]
    }

    /// The nine values of a row, left to right.
    pub fn get_row(&self, row: usize) -> (values: [u8; 9])
        requires
            in_range(row as int),
        ensures
            values@ == row_values(self@, row as int),
    {
        let row_start: usize = (row - 1) * 9;
        let mut buffer = [0u8; 9];
        let mut col: usize = 0;
        while col < 9
            invariant
                col <= 9,
                in_range(row as int),
                row_start == (row - 1) * 9,
                forall|k: int| 0 <= k < col ==> buffer@[k] == self@[cell_index(row as int, k + 1)],
            decreases 9 - col,
        {
            buffer[col] = self.0[row_start + col];
            col += 1;
        }
        assert(buffer@ =~= row_values(self@, row as int));
        buffer
    }

    /// The nine values of a column, top to bottom.
    pub fn get_col(&self, col: usize) -> (values: [u8; 9])
        requires
            in_range(col as int),
        ensures
            values@ == col_values(self@, col as int),
    {
        let mut buffer = [0u8; 9];
        let offset: usize = col - 1;
        let mut row: usize = 0;
        while row < 9
            invariant
                row <= 9,
                in_range(col as int),
                offset == col - 1,
                forall|k: int| 0 <= k < row ==> buffer@[k] == self@[cell_index(k + 1, col as int)],
            decreases 9 - row,
        {
            buffer[row] = self.0[(row * 9) + offset];
            row += 1;
        }
        assert(buffer@ =~= col_values(self@, col as int));
        buffer
    }

    /// The nine values of one of the 3x3 boxes: three cells from the box's
    /// top-left cell on, then three from the cell one row below it, and three
    /// from the row after that.
    pub fn get_box(&self, index: usize) -> (values: [u8; 9])
        requires
            in_range(index as int),
        ensures
            values@ == box_values(self@, index as int),
    {
        let cell_index: usize = match index {
            1 => 0,
            2 => 3,
            3 => 6,
            4 => 27,
            5 => 30,
            6 => 33,
            7 => 54,
            8 => 57,
            _ => 60,
        };
        let mut buffer = [0u8; 9];
        let mut row: usize = 0;
        while row < 3
            invariant
                row <= 3,
                cell_index == box_origin(index as int),
                0 <= cell_index <= 60,
                forall|k: int|
                    0 <= k < row * 3 ==> buffer@[k] == self@[cell_index + 9 * (k / 3) + k % 3],
            decreases 3 - row,
        {
            let start: usize = cell_index + (9 * row);
            let mut col: usize = 0;
            while col < 3
                invariant
                    row < 3,
                    col <= 3,
                    start == cell_index + 9 * row,
                    0 <= cell_index <= 60,
                    forall|k: int|
                        0 <= k < row * 3 + col ==> buffer@[k] == self@[cell_index + 9 * (k / 3) + k
                            % 3],
                decreases 3 - col,
            {
                buffer[row * 3 + col] = self.0[start + col];
                col += 1;
            }
            row += 1;
        }
        assert(buffer@ =~= box_values(self@, index as int));
        buffer
    }
}

/// A pass over the values of a grid, from the first cell to the last.
pub struct Cells<'a> {
    current_index: usize,
    values: &'a [u8],
}

impl<'a> Cells<'a> {
    #[verifier::type_invariant]
    spec fn inv(&self) -> bool {
        self.current_index <= self.values@.len()
    }

    /// The values that are still to come.
    pub closed spec fn view(&self) -> Seq<u8> {
        self.values@.skip(self.current_index as int)
    }

    /// Hands out the next value, or `None` once all have been handed out.
    pub fn next(&mut self) -> (item: Option<u8>)
        ensures
            old(self)@.len() > 0 ==> item == Some(old(self)@[0]) && final(self)@ == old(self)@.skip(
                1,
            ),
            old(self)@.len() == 0 ==> item.is_none() && final(self)@ == old(self)@,
    {
        proof {
            use_type_invariant(&*self);
        }
        let prev_index: usize = self.current_index;
        if prev_index < self.values.len() {
            self.current_index = prev_index + 1;
            assert(self.values@.skip(prev_index as int).skip(1) =~= self.values@.skip(
                prev_index + 1,
            ));
            Some(self.values[prev_index])
        } else {
            None
        }
    }
}

/// Whether no nonzero value occurs twice in `inpt`.
pub fn nums_uniq(inpt: &[u8]) -> (unique: bool)
    ensures
        unique == distinct_digits(inpt@),
{
    let mut seen = [false; 256];
    let mut i: usize = 0;
    while i < inpt.len()
        invariant
            i <= inpt.len(),
            forall|v: int|
                0 <= v < 256 ==> (seen@[v] <==> exists|k: int|
                    0 <= k < i && inpt@[k] != 0 && #[trigger] inpt@[k] == v),
            forall|a: int, b: int| 0 <= a < b < i && inpt@[a] != 0 ==> inpt@[a] != inpt@[b],
        decreases inpt.len() - i,
    {
        let num: u8 = inpt[i];
        if seen[num as usize] {
            return false;
        }
        if num != 0 {
            seen[num as usize] = true;
        }
        i += 1;
    }
    true
}

/// What a puzzle holds: the clues it started from, the digits placed so far,
/// and a candidate mask for each cell. Each of the three has 81 entries in
/// row-major order.
pub struct GameView {
    pub given: Seq<u8>,
    pub current: Seq<u8>,
    pub notes: Seq<u16>,
}

impl GameView {
    /// All three parts cover the whole board, and every clue still stands in
    /// its cell.
    pub open spec fn wf(self) -> bool {
        &&& self.given.len() == 81
        &&& self.current.len() == 81
        &&& self.notes.len() == 81
        &&& forall|i: int| 0 <= i < 81 && self.given[i] != 0 ==> self.current[i] == self.given[i]
    }

    /// The puzzle as it starts out from the clues `given`: nothing placed
    /// beyond them, and no candidates noted.
    pub open spec fn fresh(given: Seq<u8>) -> GameView {
        GameView { given, current: given, notes: Seq::new(81, |i: int| 0u16) }
    }

    /// Whether the cell at `index` holds a clue.
    pub open spec fn is_given(self, index: int) -> bool {
        self.given[index] != 0
    }

    /// The puzzle after an attempt to write `value` into the cell at `index`:
    /// a clue stays as it is, any other cell takes the value.
    pub open spec fn place(self, index: int, value: u8) -> GameView {
        if self.is_given(index) {
            self
        } else {
            GameView { current: self.current.update(index, value), ..self }
        }
    }

    /// The puzzle with the candidate mask of the cell at `index` replaced.
    pub open spec fn with_notes(self, index: int, mask: u16) -> GameView {
        GameView { notes: self.notes.update(index, mask), ..self }
    }

    /// The puzzle with the candidate `digit` of the cell at `index` flipped.
    /// Only the digits 1 to 9 have a bit to flip.
    pub open spec fn toggle_note(self, index: int, digit: int) -> GameView {
        self.with_notes(index, self.notes[index] ^ note_bit(digit))
    }

    /// Whether no row, column or box holds a digit twice.
    pub open spec fn valid(self) -> bool {
        grid_valid(self.current)
    }

    /// Writing a digit, or clearing a cell, leaves nothing but digits on a
    /// board that held nothing but digits.
    pub proof fn lemma_place_digits(self, index: int, value: u8)
        requires
            self.wf(),
            all_digits(self.current),
            0 <= index < 81,
            value <= 9,
        ensures
            self.place(index, value).wf(),
            all_digits(self.place(index, value).current),
    {
    }
}

/// A puzzle: the clues, the digits placed so far, and the candidates noted
/// for each cell.
#[derive(Debug, PartialEq, Clone, Copy)]
pub struct Game {
    given_numbers: Numbers,
    current_numbers: Numbers,
    notes: [u16; 81],
}

impl View for Game {
    type V = GameView;

    closed spec fn view(&self) -> GameView {
        GameView {
            given: self.given_numbers@,
            current: self.current_numbers@,
            notes: self.notes@,
        }
    }
}

impl Game {
    /// Holds of every puzzle at all times: clues cannot be overwritten.
    #[verifier::type_invariant]
    pub open spec fn wf(&self) -> bool {
        self@.wf()
    }

    /// Starts a puzzle from its clues: the clues are the digits placed so
    /// far, and no candidates are noted.
    pub fn from_numbers(given_numbers: Numbers) -> (game: Game)
        ensures
            game@ == GameView::fresh(given_numbers@),
    {
        let game = Game { given_numbers, current_numbers: given_numbers, notes: [0u16; 81] };
        assert(game@.notes =~= Seq::new(81, |i: int| 0u16));
        game
    }

    /// Starts a puzzle from anything that converts into its clues, such as an
    /// array of 81 digits. What the clues are is for the conversion to say.
    pub fn create<N: Into<Numbers>>(given_numbers: N) -> (game: Game)
        ensures
            game@ == GameView::fresh(game@.given),
            game@.wf(),
            <N as IntoSpec<Numbers>>::obeys_into_spec() ==> game@.given == <N as IntoSpec<
                Numbers,
            >>::into_spec(given_numbers)@,
    {
        Self::from_numbers(given_numbers.into())
    }

    /// The candidate mask of the cell at (`row`, `col`).
    pub fn get_notes(&self, row: usize, col: usize) -> (mask: u16)
        requires
            in_range(row as int),
            in_range(col as int),
        ensures
            mask == self@.notes[cell_index(row as int, col as int)],
    {
        self.notes[Self::coords_to_cell_index(row, col)]
    }

    /// Replaces the candidate mask of the cell at (`row`, `col`).
    pub fn set_notes(&mut self, row: usize, col: usize, mask: u16)
        requires
            in_range(row as int),
            in_range(col as int),
        ensures
            final(self)@ == old(self)@.with_notes(cell_index(row as int, col as int), mask),
    {
        proof {
            use_type_invariant(&*self);
        }
        let index: usize = Self::coords_to_cell_index(row, col);
        self.notes[index] = mask;
    }

    /// Flips the candidate `note` of a cell. A `note` that is no digit from 1
    /// to 9 changes nothing.
    pub fn toggle_note(&mut self, row: usize, col: usize, note: u8)
        requires
            in_range(row as int),
            in_range(col as int),
        ensures
            final(self)@ == old(self)@.toggle_note(cell_index(row as int, col as int), note as int),
    {
        proof {
            use_type_invariant(&*self);
        }
        let index: usize = Self::coords_to_cell_index(row, col);
        let mask: u16 = self.notes[index];
        if 1 <= note && note <= 9 {
            let shift: u16 = (note - 1) as u16;
            proof {
                lemma_note_bit_is_shift(note as u16);
            }
            self.notes[index] = mask ^ (1u16 << shift);
        } else {
            assert(mask ^ 0 == mask) by (bit_vector);
            assert(self@.notes.update(index as int, mask) =~= self@.notes);
        }
    }

    /// The row and column of the cell at offset `index`.
    pub fn cell_index_to_coords(index: usize) -> (coords: (usize, usize))
        requires
            index < 81,
        ensures
            coords.0 == cell_row(index as int),
            coords.1 == cell_col(index as int),
            in_range(coords.0 as int),
            in_range(coords.1 as int),
    {
        let col: usize = index % 9;
        let row: usize = (index - col) / 9;
        (row + 1, col + 1)
    }

    /// The offset of the cell at (`row`, `col`).
    pub fn coords_to_cell_index(row: usize, col: usize) -> (index: usize)
        requires
            in_range(row as int),
            in_range(col as int),
        ensures
            index == cell_index(row as int, col as int),
            index < 81,
    {
        ((row - 1) * 9) + (col - 1)
    }

    /// The digits placed so far, cell by cell.
    pub fn cells(&self) -> (cells: Cells<'_>)
        ensures
            cells@ == self@.current,
    {
        self.current_numbers.cells()
    }

    /// Whether the cell at offset `index` holds a clue.
    pub fn index_is_given(&self, index: usize) -> (given: bool)
        requires
            index < 81,
        ensures
            given == self@.is_given(index as int),
    {
        self.given_numbers.get_by_offset(index) != 0
    }

    /// Whether the cell at (`row`, `col`) holds a clue.
    pub fn is_given(&self, row: usize, col: usize) -> (given: bool)
        requires
            in_range(row as int),
            in_range(col as int),
        ensures
            given == self@.is_given(cell_index(row as int, col as int)),
    {
        self.given_numbers.get(row, col) != 0
    }

    /// Writes `value` into a cell unless the cell holds a clue, and says
    /// whether it did. Writing 0 clears the cell.
    pub fn set(&mut self, row: usize, col: usize, value: u8) -> (accepted: bool)
        requires
            in_range(row as int),
            in_range(col as int),
        ensures
            accepted == !old(self)@.is_given(cell_index(row as int, col as int)),
            final(self)@ == old(self)@.place(cell_index(row as int, col as int), value),
    {
        proof {
            use_type_invariant(&*self);
        }
        if self.is_given(row, col) {
            return false;
        }
        let mut current: Numbers = self.current_numbers;
        current.set(row, col, value);
        self.current_numbers = current;
        true
    }

    /// The digit placed in the cell at (`row`, `col`), or 0 if it is empty.
    pub fn get(&self, row: usize, col: usize) -> (value: u8)
        requires
            in_range(row as int),
            in_range(col as int),
        ensures
            value == self@.current[cell_index(row as int, col as int)],
    {
        self.current_numbers.get(row, col)
    }

    /// Whether no row, column or box holds a digit twice. Empty cells never
    /// clash.
    pub fn is_valid(&self) -> (valid: bool)
        ensures
            valid == self@.valid(),
    {
        let mut group_index: usize = 1;
        while group_index <= 9
            invariant
                1 <= group_index <= 10,
                forall|n: int|
                    1 <= n < group_index ==> {
                        &&& distinct_digits(#[trigger] row_values(self@.current, n))
                        &&& distinct_digits(col_values(self@.current, n))
                        &&& distinct_digits(box_values(self@.current, n))
                    },
            decreases 10 - group_index,
        {
            let row = self.current_numbers.get_row(group_index);
            if !nums_uniq(&row) {
                return false;
            }
            let col = self.current_numbers.get_col(group_index);
            if !nums_uniq(&col) {
                assert(row@ == row_values(self@.current, group_index as int));
                return false;
            }
            let sbox = self.current_numbers.get_box(group_index);
            if !nums_uniq(&sbox) {
                assert(row@ == row_values(self@.current, group_index as int));
                return false;
            }
            group_index += 1;
        }
        true
    }
}

} // verus!
