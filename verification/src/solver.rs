use crate::notes::{
    candidates, digit_seen, has_note, lemma_add_note, lemma_candidates, lemma_clear_notes,
    lemma_no_notes, lemma_note_bit_is_shift, lemma_same_notes, note_bit, single_note, ALL_NOTES,
};
use crate::sudoku::{Game, GameView};
use crate::units::{all_digits, cell_box, cell_col, cell_row, same_unit};
use vstd::arithmetic::div_mod::{lemma_add_mod_noop_right, lemma_mod_bound, lemma_small_mod};
use vstd::prelude::*;

verus! {

/// One way of filling in a puzzle a little further. A step keeps no state:
/// what it hands back depends on the puzzle it was given and on nothing else.
pub trait SolverStep: std::fmt::Debug {
    /// The puzzle that the step makes of `state`.
    spec fn apply_spec(&self, state: GameView) -> GameView;

    fn apply(&self, state: Game) -> (next: Game)
        ensures
            next@ == self.apply_spec(state@),
    ;
}

/// The puzzle with the candidates of every empty cell worked out afresh from
/// the digits in its row, column and box. Cells that hold a digit keep
/// whatever was noted for them.
pub open spec fn basic_markings(state: GameView) -> GameView {
    GameView {
        notes: Seq::new(
            81,
            |i: int|
                if state.current[i] == 0 {
                    candidates(state.current, i)
                } else {
                    state.notes[i]
                },
        ),
        ..state
    }
}

/// The puzzle with every empty cell that has a single candidate left filled
/// in with that candidate.
pub open spec fn naked_singles(state: GameView) -> GameView {
    GameView {
        current: Seq::new(
            81,
            |i: int|
                if state.current[i] == 0 {
                    match single_note(state.notes[i]) {
                        Some(digit) => digit,
                        None => 0u8,
                    }
                } else {
                    state.current[i]
                },
        ),
        ..state
    }
}

/// Whether the cell at offset `cell` lies in unit `unit`, where the units are
/// counted from 0: first the nine rows, then the nine columns, then the nine
/// boxes.
spec fn in_unit(cell: int, unit: int) -> bool {
    if unit < 9 {
        cell_row(cell) - 1 == unit
    } else if unit < 18 {
        cell_col(cell) - 1 == unit - 9
    } else {
        cell_box(cell) - 1 == unit - 18
    }
}

/// Whether one of the first `upto` cells lies in `unit` and holds `digit`.
spec fn seen_upto(cells: Seq<u8>, unit: int, digit: int, upto: int) -> bool {
    exists|cell: int| 0 <= cell < upto && #[trigger] in_unit(cell, unit) && cells[cell] == digit
}

/// The masks record, for each of the 27 units, exactly the digits that the
/// first `upto` cells put into it.
spec fn seen_masks(masks: Seq<u16>, cells: Seq<u8>, upto: int) -> bool {
    &&& masks.len() == 27
    &&& forall|unit: int, digit: int|
        0 <= unit < 27 && 1 <= digit <= 9 ==> (#[trigger] has_note(masks[unit], digit)
            <==> seen_upto(cells, unit, digit, upto))
}

proof fn lemma_seen_masks_skip(masks: Seq<u16>, cells: Seq<u8>, upto: int)
    requires
        seen_masks(masks, cells, upto),
        0 <= upto < 81,
        !(1 <= cells[upto] <= 9),
    ensures
        seen_masks(masks, cells, upto + 1),
{
    assert forall|unit: int, digit: int| 0 <= unit < 27 && 1 <= digit <= 9 implies (
    #[trigger] has_note(masks[unit], digit) <==> seen_upto(cells, unit, digit, upto + 1)) by {
        if seen_upto(cells, unit, digit, upto) {
            let cell = choose|cell: int|
                0 <= cell < upto && #[trigger] in_unit(cell, unit) && cells[cell] == digit;
            assert(in_unit(cell, unit));
        }
    }
}

proof fn lemma_seen_masks_add(
    before: Seq<u16>,
    after: Seq<u16>,
    cells: Seq<u8>,
    upto: int,
)
    requires
        seen_masks(before, cells, upto),
        0 <= upto < 81,
        1 <= cells[upto] <= 9,
        after.len() == 27,
        forall|unit: int|
            0 <= unit < 27 ==> after[unit] == if in_unit(upto, unit) {
                before[unit] | note_bit(cells[upto] as int)
            } else {
                before[unit]
            },
    ensures
        seen_masks(after, cells, upto + 1),
{
    assert forall|unit: int, digit: int| 0 <= unit < 27 && 1 <= digit <= 9 implies (
    #[trigger] has_note(after[unit], digit) <==> seen_upto(cells, unit, digit, upto + 1)) by {
        lemma_add_note(before[unit], cells[upto] as int, digit);
        assert(has_note(before[unit], digit) <==> seen_upto(cells, unit, digit, upto));
        if seen_upto(cells, unit, digit, upto) {
            let cell = choose|cell: int|
                0 <= cell < upto && #[trigger] in_unit(cell, unit) && cells[cell] == digit;
            assert(in_unit(cell, unit));
        }
        if in_unit(upto, unit) && cells[upto] == digit {
            assert(seen_upto(cells, unit, digit, upto + 1));
        }
    }
}

/// A digit is seen from a cell exactly when some cell of its row, of its
/// column or of its box holds it.
proof fn lemma_seen_from_units(cells: Seq<u8>, index: int, digit: int)
    requires
        0 <= index < 81,
    ensures
        digit_seen(cells, index, digit) <==> {
            ||| seen_upto(cells, cell_row(index) - 1, digit, 81)
            ||| seen_upto(cells, 9 + cell_col(index) - 1, digit, 81)
            ||| seen_upto(cells, 18 + cell_box(index) - 1, digit, 81)
        },
{
    let row = cell_row(index) - 1;
    let col = 9 + cell_col(index) - 1;
    let sbox = 18 + cell_box(index) - 1;
    if digit_seen(cells, index, digit) {
        let other = choose|other: int|
            0 <= other < 81 && #[trigger] same_unit(index, other) && cells[other] == digit;
        assert(in_unit(other, row) || in_unit(other, col) || in_unit(other, sbox));
    }
    if seen_upto(cells, row, digit, 81) {
        let cell = choose|cell: int|
            0 <= cell < 81 && #[trigger] in_unit(cell, row) && cells[cell] == digit;
        assert(same_unit(index, cell));
    }
    if seen_upto(cells, col, digit, 81) {
        let cell = choose|cell: int|
            0 <= cell < 81 && #[trigger] in_unit(cell, col) && cells[cell] == digit;
        assert(same_unit(index, cell));
    }
    if seen_upto(cells, sbox, digit, 81) {
        let cell = choose|cell: int|
            0 <= cell < 81 && #[trigger] in_unit(cell, sbox) && cells[cell] == digit;
        assert(same_unit(index, cell));
    }
}

/// A solver step that narrows the candidates of each empty cell down to the
/// digits that no cell of the same unit holds yet.
#[derive(Debug)]
pub struct GenerateBasicMarkingsStep;

impl SolverStep for GenerateBasicMarkingsStep {
    open spec fn apply_spec(&self, state: GameView) -> GameView {
        basic_markings(state)
    }

    fn apply(&self, state: Game) -> (next: Game) {
        proof {
            use_type_invariant(&state);
        }
        // One mask for each of the 9 rows, 9 columns and 9 boxes.
        let mut seen_numbers = [0u16; 27];
        proof {
            assert forall|unit: int, digit: int| 0 <= unit < 27 && 1 <= digit <= 9 implies !(
            #[trigger] has_note(seen_numbers@[unit], digit)) by {
                lemma_no_notes(digit);
            }
        }
        let mut row: usize = 0;
        while row < 9
            invariant
                row <= 9,
                state@.wf(),
                seen_masks(seen_numbers@, state@.current, row * 9),
            decreases 9 - row,
        {
            let mut cell: usize = 0;
            while cell < 9
                invariant
                    row < 9,
                    cell <= 9,
                    state@.wf(),
                    seen_masks(seen_numbers@, state@.current, row * 9 + cell),
                decreases 9 - cell,
            {
                let value: u8 = state.get(row + 1, cell + 1);
                let ghost before = seen_numbers@;
                if 1 <= value && value <= 9 {
                    let box_id: usize = (row / 3) * 3 + (cell / 3);
                    let bit: u16 = 1u16 << ((value - 1) as u16);
                    proof {
                        lemma_note_bit_is_shift(value as u16);
                    }
                    seen_numbers[row] = seen_numbers[row] | bit;
                    seen_numbers[9 + cell] = seen_numbers[9 + cell] | bit;
                    seen_numbers[18 + box_id] = seen_numbers[18 + box_id] | bit;
                    proof {
                        lemma_seen_masks_add(
                            before,
                            seen_numbers@,
                            state@.current,
                            row * 9 + cell,
                        );
                    }
                } else {
                    proof {
                        lemma_seen_masks_skip(before, state@.current, row * 9 + cell);
                    }
                }
                cell += 1;
            }
            row += 1;
        }

        let mut new_game = state;
        let mut idx: usize = 0;
        while idx < 81
            invariant
                idx <= 81,
                state@.wf(),
                seen_masks(seen_numbers@, state@.current, 81),
                new_game@.given == state@.given,
                new_game@.current == state@.current,
                new_game@.notes.len() == 81,
                forall|k: int|
                    0 <= k < idx ==> new_game@.notes[k] == basic_markings(state@).notes[k],
                forall|k: int| idx <= k < 81 ==> new_game@.notes[k] == state@.notes[k],
            decreases 81 - idx,
        {
            let (row, col) = Game::cell_index_to_coords(idx);
            let value: u8 = state.get(row, col);
            if value == 0 {
                let box_id: usize = ((row - 1) / 3) * 3 + ((col - 1) / 3);
                let mask: u16 = ALL_NOTES & !seen_numbers[row - 1] & !seen_numbers[9 + col - 1]
                    & !seen_numbers[18 + box_id];
                proof {
                    let cells = state@.current;
                    assert forall|digit: int| 1 <= digit <= 9 implies (has_note(mask, digit)
                        <==> has_note(candidates(cells, idx as int), digit)) by {
                        lemma_clear_notes(
                            seen_numbers[row - 1],
                            seen_numbers[9 + col - 1],
                            seen_numbers[18 + box_id],
                            digit,
                        );
                        lemma_seen_from_units(cells, idx as int, digit);
                        lemma_candidates(cells, idx as int, digit);
                    }
                    lemma_clear_notes(
                        seen_numbers[row - 1],
                        seen_numbers[9 + col - 1],
                        seen_numbers[18 + box_id],
                        1,
                    );
                    lemma_candidates(cells, idx as int, 1);
                    lemma_same_notes(mask, candidates(cells, idx as int));
                }
                new_game.set_notes(row, col, mask);
            }
            idx += 1;
        }
        proof {
            assert(new_game@.notes =~= basic_markings(state@).notes);
        }
        new_game
    }
}

/// The digit that `notes` leaves as the only candidate, if it leaves exactly
/// one.
pub fn single_candidate(notes: u16) -> (digit: Option<u8>)
    ensures
        digit == single_note(notes),
{
    match notes {
        0x0001 => Some(1),
        0x0002 => Some(2),
        0x0004 => Some(3),
        0x0008 => Some(4),
        0x0010 => Some(5),
        0x0020 => Some(6),
        0x0040 => Some(7),
        0x0080 => Some(8),
        0x0100 => Some(9),
        _ => None,
    }
}

/// A solver step that fills in every empty cell for which earlier steps left
/// a single candidate.
#[derive(Debug)]
pub struct NakedSingleStep;

impl SolverStep for NakedSingleStep {
    open spec fn apply_spec(&self, state: GameView) -> GameView {
        naked_singles(state)
    }

    fn apply(&self, state: Game) -> (next: Game) {
        proof {
            use_type_invariant(&state);
        }
        let mut new_game = state;
        let mut idx: usize = 0;
        while idx < 81
            invariant
                idx <= 81,
                state@.wf(),
                new_game@.given == state@.given,
                new_game@.notes == state@.notes,
                new_game@.current.len() == 81,
                forall|k: int|
                    0 <= k < idx ==> new_game@.current[k] == naked_singles(state@).current[k],
                forall|k: int| idx <= k < 81 ==> new_game@.current[k] == state@.current[k],
            decreases 81 - idx,
        {
            let (row, col) = Game::cell_index_to_coords(idx);
            let value: u8 = state.get(row, col);
            if value == 0 {
                let notes: u16 = state.get_notes(row, col);
                match single_candidate(notes) {
                    Some(digit) => {
                        new_game.set(row, col, digit);
                    },
                    None => {},
                }
            }
            idx += 1;
        }
        proof {
            assert(new_game@.current =~= naked_singles(state@).current);
        }
        new_game
    }
}

/// The steps that come with the solver, as one type, so that a solver can
/// hold both kinds in one list.
#[derive(Debug, Clone, Copy, PartialEq, Eq)]
pub enum Step {
    GenerateBasicMarkings,
    NakedSingle,
}

impl SolverStep for Step {
    open spec fn apply_spec(&self, state: GameView) -> GameView {
        match self {
            Step::GenerateBasicMarkings => basic_markings(state),
            Step::NakedSingle => naked_singles(state),
        }
    }

    fn apply(&self, state: Game) -> (next: Game) {
        match self {
            Step::GenerateBasicMarkings => GenerateBasicMarkingsStep.apply(state),
            Step::NakedSingle => NakedSingleStep.apply(state),
        }
    }
}

/// On a board without empty cells the candidates stay as they are.
pub proof fn lemma_markings_on_full_board(state: GameView)
    requires
        state.wf(),
        forall|i: int| 0 <= i < 81 ==> state.current[i] != 0,
    ensures
        basic_markings(state) == state,
{
    assert(basic_markings(state).notes =~= state.notes);
}

/// The candidates worked out for an empty cell are the digits from 1 to 9
/// that no cell of its row, column or box holds. Clues, placed digits and the
/// candidates of the other cells stay as they are.
pub proof fn lemma_markings_candidates(state: GameView, index: int, digit: int)
    requires
        state.wf(),
        0 <= index < 81,
        1 <= digit <= 9,
    ensures
        basic_markings(state).given == state.given,
        basic_markings(state).current == state.current,
        state.current[index] != 0 ==> basic_markings(state).notes[index] == state.notes[index],
        state.current[index] == 0 ==> basic_markings(state).notes[index] <= ALL_NOTES,
        state.current[index] == 0 ==> (has_note(basic_markings(state).notes[index], digit)
            <==> !digit_seen(state.current, index, digit)),
{
    lemma_candidates(state.current, index, digit);
}

/// A digit that stands in a cell is no candidate for the empty cells of its
/// row, column and box.
pub proof fn lemma_markings_exclude(state: GameView, index: int, other: int)
    requires
        state.wf(),
        0 <= index < 81,
        0 <= other < 81,
        same_unit(index, other),
        state.current[index] == 0,
        1 <= state.current[other] <= 9,
    ensures
        !has_note(basic_markings(state).notes[index], state.current[other] as int),
{
    lemma_candidates(state.current, index, state.current[other] as int);
}

/// An empty cell whose candidates are the bit of one digit takes that digit.
/// Every other cell, the clues and all candidates stay as they are.
pub proof fn lemma_naked_single_commits(state: GameView, index: int, digit: int)
    requires
        state.wf(),
        0 <= index < 81,
        1 <= digit <= 9,
    ensures
        naked_singles(state).given == state.given,
        naked_singles(state).notes == state.notes,
        state.current[index] == 0 && state.notes[index] == note_bit(digit) ==> naked_singles(
            state,
        ).current[index] == digit,
        state.current[index] != 0 || single_note(state.notes[index]).is_none() ==> naked_singles(
            state,
        ).current[index] == state.current[index],
{
}

/// Both steps leave every clue in its cell.
pub proof fn lemma_steps_keep_clues(state: GameView)
    requires
        state.wf(),
    ensures
        basic_markings(state).wf(),
        naked_singles(state).wf(),
{
}

/// Both steps leave nothing but digits on a board that held nothing but
/// digits.
pub proof fn lemma_steps_keep_digits(state: GameView)
    requires
        state.wf(),
        all_digits(state.current),
    ensures
        all_digits(basic_markings(state).current),
        all_digits(naked_singles(state).current),
{
}

/// What a solver holds: its steps in the order in which they were added, and
/// the place of the step that ran last, if one has run.
pub struct SolverView<S> {
    pub steps: Seq<S>,
    pub current_step: Option<int>,
}

impl<S: SolverStep> SolverView<S> {
    /// The step that ran last is one of the steps.
    pub open spec fn wf(self) -> bool {
        match self.current_step {
            Some(current) => 0 <= current < self.steps.len(),
            None => true,
        }
    }

    /// The solver that has no steps and has not run.
    pub open spec fn empty() -> SolverView<S> {
        SolverView { steps: Seq::empty(), current_step: None }
    }

    /// The place of the step that runs next: the first one at the start, the
    /// one after the last run otherwise, and the first one again after the
    /// last of the list.
    pub open spec fn next_index(self) -> int {
        match self.current_step {
            Some(current) => (current + 1) % (self.steps.len() as int),
            None => 0,
        }
    }

    /// The solver after it has run its next step. Without steps it stays as
    /// it is.
    pub open spec fn advance(self) -> SolverView<S> {
        if self.steps.len() == 0 {
            self
        } else {
            SolverView { current_step: Some(self.next_index()), ..self }
        }
    }

    /// What the next step makes of `state`. Without steps the puzzle stays as
    /// it is.
    pub open spec fn step_result(self, state: GameView) -> GameView {
        if self.steps.len() == 0 {
            state
        } else {
            self.steps[self.next_index()].apply_spec(state)
        }
    }

    /// The solver after `calls` runs.
    pub open spec fn advance_by(self, calls: nat) -> SolverView<S>
        decreases calls,
    {
        if calls == 0 {
            self
        } else {
            self.advance().advance_by((calls - 1) as nat)
        }
    }

    /// What `calls` runs in a row make of `state`.
    pub open spec fn run(self, state: GameView, calls: nat) -> GameView
        decreases calls,
    {
        if calls == 0 {
            state
        } else {
            self.advance().run(self.step_result(state), (calls - 1) as nat)
        }
    }

    /// A run keeps the steps and leaves the solver in order.
    pub proof fn lemma_advance(self)
        requires
            self.wf(),
        ensures
            self.advance().wf(),
            self.advance().steps == self.steps,
            self.steps.len() > 0 ==> 0 <= self.next_index() < self.steps.len(),
            self.steps.len() > 0 ==> self.advance().next_index() == (self.next_index() + 1) % (
            self.steps.len() as int),
    {
        if self.steps.len() > 0 {
            if let Some(current) = self.current_step {
                lemma_mod_bound(current + 1, self.steps.len() as int);
            }
        }
    }

    /// A solver without steps never changes, and never changes a puzzle.
    pub proof fn lemma_no_steps(self, state: GameView, calls: nat)
        requires
            self.steps.len() == 0,
        ensures
            self.advance_by(calls) == self,
            self.run(state, calls) == state,
        decreases calls,
    {
        if calls > 0 {
            self.lemma_no_steps(state, (calls - 1) as nat);
        }
    }

    /// The steps take turns: with `n` steps, the run that follows `calls`
    /// earlier runs applies the step `calls` places after the one whose turn
    /// it is now, counted round the list. So a solver that has not run yet
    /// applies its steps in the order 0, 1, ..., n - 1, 0, 1, ...
    pub proof fn lemma_steps_take_turns(self, state: GameView, calls: nat)
        requires
            self.wf(),
            self.steps.len() > 0,
        ensures
            self.advance_by(calls).wf(),
            self.advance_by(calls).steps == self.steps,
            self.advance_by(calls).next_index() == (self.next_index() + calls) % (
            self.steps.len() as int),
            self.run(state, calls + 1) == self.steps[(self.next_index() + calls) % (
            self.steps.len() as int)].apply_spec(self.run(state, calls)),
            self.current_step.is_none() ==> self.run(state, calls + 1) == self.steps[(calls as int)
                % (self.steps.len() as int)].apply_spec(self.run(state, calls)),
        decreases calls,
    {
        let n = self.steps.len() as int;
        let turn = self.next_index();
        self.lemma_advance();
        if calls == 0 {
            lemma_small_mod(turn as nat, n as nat);
            assert(self.advance().run(self.step_result(state), 0) == self.step_result(state));
        } else {
            let rest = (calls - 1) as nat;
            let after = self.advance();
            let made = self.step_result(state);
            after.lemma_steps_take_turns(made, rest);
            lemma_add_mod_noop_right(rest as int, turn + 1, n);
            assert((after.next_index() + rest) % n == (turn + calls) % n);
            assert(self.advance_by(calls) == after.advance_by(rest));
            assert(self.run(state, calls) == after.run(made, rest));
            assert(self.run(state, (calls + 1) as nat) == after.run(made, (rest + 1) as nat));
        }
    }
}

/// A list of steps that are run one at a time, in the order in which they
/// were added, starting over after the last.
#[derive(Debug)]
pub struct Solver<S: SolverStep> {
    steps: Vec<S>,
    current_step: Option<usize>,
}

impl<S: SolverStep> View for Solver<S> {
    type V = SolverView<S>;

    closed spec fn view(&self) -> SolverView<S> {
        SolverView {
            steps: self.steps@,
            current_step: match self.current_step {
                Some(current) => Some(current as int),
                None => None,
            },
        }
    }
}

impl<S: SolverStep> Default for Solver<S> {
    fn default() -> (solver: Self)
        ensures
            solver@ == SolverView::<S>::empty(),
    {
        Self { steps: Vec::new(), current_step: None }
    }
}

impl<S: SolverStep> Solver<S> {
    /// Holds of every solver at all times.
    #[verifier::type_invariant]
    pub open spec fn wf(&self) -> bool {
        self@.wf()
    }

    /// Adds `step` behind the steps that are there.
    pub fn add_step(&mut self, step: S)
        ensures
            final(self)@.steps == old(self)@.steps.push(step),
            final(self)@.current_step == old(self)@.current_step,
    {
        proof {
            use_type_invariant(&*self);
        }
        // The list is taken out while it grows, and the cursor with it, so
        // that the solver is in order at every point on the way.
        let current_step: Option<usize> = self.current_step;
        self.current_step = None;
        let mut steps: Vec<S> = Vec::new();
        std::mem::swap(&mut steps, &mut self.steps);
        steps.push(step);
        self.steps = steps;
        self.current_step = current_step;
    }

    pub fn count_steps(&self) -> (count: usize)
        ensures
            count == self@.steps.len(),
    {
        self.steps.len()
    }

    /// Runs the step whose turn it is on `game` and hands back what it made
    /// of it. A solver without steps hands `game` back.
    pub fn next_step(&mut self, game: Game) -> (next: Game)
        ensures
            final(self)@ == old(self)@.advance(),
            next@ == old(self)@.step_result(game@),
            old(self)@.steps.len() == 0 ==> next == game,
    {
        proof {
            use_type_invariant(&*self);
        }
        if self.count_steps() == 0 {
            return game;
        }
        let next_step: usize = if let Some(current_step) = self.current_step {
            current_step + 1
        } else {
            0
        };
        let next_step: usize = next_step % self.count_steps();
        self.current_step = Some(next_step);
        self.steps[next_step].apply(game)
    }
}

} // verus!
