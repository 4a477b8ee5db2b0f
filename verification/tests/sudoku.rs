use sudoku_core::input::key_input;
use sudoku_core::notes::note_flags;
use sudoku_core::sudoku::{nums_uniq, Game, Numbers};

fn test_field() -> [u8; 81] {
    [
        1, 0, 0,  0, 6, 0,  0, 0, 0,
        9, 8, 0,  0, 0, 0,  6, 0, 5,
        0, 0, 0,  0, 0, 5,  0, 0, 1,

        0, 0, 0,  0, 0, 0,  3, 0, 4,
        0, 6, 0,  1, 3, 0,  9, 0, 0,
        0, 4, 0,  7, 2, 0,  0, 0, 0,

        0, 9, 3,  0, 7, 6,  1, 0, 0,
        0, 0, 6,  4, 8, 0,  0, 0, 7,
        5, 0, 0,  9, 0, 2,  4, 6, 0,
    ]
}

/// A valid field in which another 1 in any free cell clashes with a 1 that
/// is there.
fn validation_pattern() -> [u8; 81] {
    [
        1, 0, 0,  0, 0, 0,  0, 0, 0,
        0, 0, 0,  1, 0, 0,  0, 0, 0,
        0, 0, 0,  0, 0, 0,  1, 0, 0,

        0, 1, 0,  0, 0, 0,  0, 0, 0,
        0, 0, 0,  0, 1, 0,  0, 0, 0,
        0, 0, 0,  0, 0, 0,  0, 1, 0,

        0, 0, 1,  0, 0, 0,  0, 0, 0,
        0, 0, 0,  0, 0, 1,  0, 0, 0,
        0, 0, 0,  0, 0, 0,  0, 0, 1,
    ]
}

#[test]
fn get_row_returns_correct_numbers() {
    let n = Numbers::from(test_field());

    let row_2 = [9, 8, 0, 0, 0, 0, 6, 0, 5];
    assert_eq!(row_2, n.get_row(2));
}

#[test]
fn get_col_returns_correct_numbers() {
    let n = Numbers::from(test_field());

    let col_5 = [6, 0, 0, 0, 3, 2, 7, 8, 0];
    assert_eq!(col_5, n.get_col(5));
}

#[test]
fn get_box_returns_correct_numbers() {
    let n = Numbers::from(test_field());
    let box_8 = [0, 7, 6, 4, 8, 0, 9, 0, 2];
    assert_eq!(box_8, n.get_box(8));
}

#[test]
fn test_cell_index_to_coord() {
    assert_eq!((9, 9), Game::cell_index_to_coords(80));
}

#[test]
fn test_puzzle_is_valid_without_inputs() {
    let g = Game::create(test_field());
    assert!(g.is_valid());
}

#[test]
fn incorrect_number_in_row_invalid() {
    let mut g = Game::create(test_field());
    g.set(1, 4, 1);

    assert_eq!(false, g.is_valid());
}

#[test]
fn incorrect_number_in_col_invalid() {
    let mut g = Game::create(test_field());
    g.set(4, 1, 9);

    assert_eq!(false, g.is_valid());
}

#[test]
fn incorrect_number_in_box_invalid() {
    let mut g = Game::create(test_field());
    g.set(2, 3, 1);

    assert_eq!(false, g.is_valid());
}

#[test]
fn index_and_coords_are_inverse() {
    for index in 0..81usize {
        let (row, col) = Game::cell_index_to_coords(index);
        assert!((1..=9).contains(&row));
        assert!((1..=9).contains(&col));
        assert_eq!(index, Game::coords_to_cell_index(row, col));
    }
    for row in 1..=9usize {
        for col in 1..=9usize {
            let index = Game::coords_to_cell_index(row, col);
            assert!(index < 81);
            assert_eq!((row, col), Game::cell_index_to_coords(index));
        }
    }
}

#[test]
fn coords_to_cell_index_is_row_major() {
    assert_eq!(0, Game::coords_to_cell_index(1, 1));
    assert_eq!(8, Game::coords_to_cell_index(1, 9));
    assert_eq!(9, Game::coords_to_cell_index(2, 1));
    assert_eq!(40, Game::coords_to_cell_index(5, 5));
    assert_eq!(80, Game::coords_to_cell_index(9, 9));
    assert_eq!((1, 1), Game::cell_index_to_coords(0));
    assert_eq!((5, 5), Game::cell_index_to_coords(40));
}

#[test]
fn rows_and_cols_agree_with_get() {
    let n = Numbers::from(test_field());
    for row in 1..=9usize {
        let values = n.get_row(row);
        for col in 1..=9usize {
            assert_eq!(values[col - 1], n.get(row, col));
        }
    }
    for col in 1..=9usize {
        let values = n.get_col(col);
        for row in 1..=9usize {
            assert_eq!(values[row - 1], n.get(row, col));
        }
    }
}

#[test]
fn boxes_start_at_their_origin() {
    let mut field = [0u8; 81];
    for (index, value) in field.iter_mut().enumerate() {
        *value = index as u8;
    }
    let n = Numbers::from(field);
    let origins = [0u8, 3, 6, 27, 30, 33, 54, 57, 60];
    for number in 1..=9usize {
        let o = origins[number - 1];
        let expected = [o, o + 1, o + 2, o + 9, o + 10, o + 11, o + 18, o + 19, o + 20];
        assert_eq!(expected, n.get_box(number));
    }
}

#[test]
fn boxes_cover_the_cells_of_their_box_id() {
    let n = Numbers::from(test_field());
    for row in 1..=9usize {
        for col in 1..=9usize {
            let box_id = ((row - 1) / 3) * 3 + (col - 1) / 3;
            let slot = ((row - 1) % 3) * 3 + (col - 1) % 3;
            assert_eq!(n.get(row, col), n.get_box(box_id + 1)[slot]);
        }
    }
}

#[test]
fn get_by_offset_reads_row_major() {
    let n = Numbers::from(test_field());
    assert_eq!(1, n.get_by_offset(0));
    assert_eq!(6, n.get_by_offset(4));
    assert_eq!(9, n.get_by_offset(9));
    assert_eq!(0, n.get_by_offset(80));
    assert_eq!(6, n.get_by_offset(79));
}

#[test]
fn numbers_set_writes_one_cell() {
    let mut n = Numbers::empty();
    n.set(3, 4, 7);
    for index in 0..81usize {
        let expected = if index == 21 { 7 } else { 0 };
        assert_eq!(expected, n.get_by_offset(index));
    }
    assert_eq!(7, n.get(3, 4));
}

#[test]
fn empty_numbers_hold_no_digit() {
    let n = Numbers::empty();
    for index in 0..81usize {
        assert_eq!(0, n.get_by_offset(index));
    }
    assert_eq!(Numbers::from([0u8; 81]), n);
}

#[test]
fn cells_hands_out_all_values_in_order() {
    let n = Numbers::from(test_field());
    let mut cells = n.cells();
    for index in 0..81usize {
        assert_eq!(Some(test_field()[index]), cells.next());
    }
    assert_eq!(None, cells.next());
    assert_eq!(None, cells.next());
    // A second pass starts over.
    assert_eq!(Some(1), n.cells().next());
}

#[test]
fn game_cells_follow_the_current_digits() {
    let mut g = Game::create(test_field());
    assert!(g.set(1, 2, 7));
    let mut cells = g.cells();
    assert_eq!(Some(1), cells.next());
    assert_eq!(Some(7), cells.next());
    assert_eq!(Some(0), cells.next());
    let mut count = 3;
    while cells.next().is_some() {
        count += 1;
    }
    assert_eq!(81, count);
}

#[test]
fn create_copies_the_clues() {
    let g = Game::create(test_field());
    for index in 0..81usize {
        let (row, col) = Game::cell_index_to_coords(index);
        assert_eq!(test_field()[index], g.get(row, col));
        assert_eq!(test_field()[index] != 0, g.index_is_given(index));
        assert_eq!(test_field()[index] != 0, g.is_given(row, col));
        assert_eq!(0, g.get_notes(row, col));
    }
}

#[test]
fn create_takes_numbers_too() {
    let g = Game::create(Numbers::from(test_field()));
    assert_eq!(Game::create(test_field()), g);
    assert_eq!(Game::from_numbers(Numbers::from(test_field())), g);
    assert_eq!(8, Game::from_numbers(Numbers::from(test_field())).get(2, 2));
}

#[test]
fn set_on_a_clue_is_rejected() {
    let mut g = Game::create(test_field());
    let before = g;
    assert_eq!(false, g.set(1, 1, 5));
    assert_eq!(false, g.set(2, 2, 0));
    assert_eq!(before, g);
    assert_eq!(1, g.get(1, 1));
    assert_eq!(8, g.get(2, 2));
}

#[test]
fn set_on_a_free_cell_changes_that_cell_only() {
    let mut g = Game::create(test_field());
    assert_eq!(true, g.set(1, 2, 7));
    for index in 0..81usize {
        let (row, col) = Game::cell_index_to_coords(index);
        let expected = if index == 1 { 7 } else { test_field()[index] };
        assert_eq!(expected, g.get(row, col));
        assert_eq!(test_field()[index] != 0, g.index_is_given(index));
    }
    // The cell stays free: it can be written again, and cleared.
    assert_eq!(true, g.set(1, 2, 3));
    assert_eq!(3, g.get(1, 2));
    assert_eq!(true, g.set(1, 2, 0));
    assert_eq!(Game::create(test_field()), g);
}

#[test]
fn set_notes_replaces_one_mask() {
    let mut g = Game::create(test_field());
    g.set_notes(4, 5, 0x01FF);
    g.set_notes(9, 9, 0x0101);
    for index in 0..81usize {
        let (row, col) = Game::cell_index_to_coords(index);
        let expected = match index {
            31 => 0x01FF,
            80 => 0x0101,
            _ => 0,
        };
        assert_eq!(expected, g.get_notes(row, col));
    }
    g.set_notes(4, 5, 0);
    assert_eq!(0, g.get_notes(4, 5));
}

#[test]
fn toggle_note_flips_one_bit() {
    let mut g = Game::create(test_field());
    g.toggle_note(1, 2, 1);
    assert_eq!(0x0001, g.get_notes(1, 2));
    g.toggle_note(1, 2, 9);
    assert_eq!(0x0101, g.get_notes(1, 2));
    g.toggle_note(1, 2, 5);
    assert_eq!(0x0111, g.get_notes(1, 2));
    g.toggle_note(1, 2, 1);
    assert_eq!(0x0110, g.get_notes(1, 2));
    assert_eq!(0, g.get_notes(1, 3));
    assert_eq!(0, g.get_notes(2, 2));
    for digit in 1..=9u8 {
        let mut h = Game::create(test_field());
        h.toggle_note(5, 1, digit);
        assert_eq!(1u16 << (digit - 1), h.get_notes(5, 1));
        h.toggle_note(5, 1, digit);
        assert_eq!(0, h.get_notes(5, 1));
    }
}

#[test]
fn toggle_note_ignores_what_is_no_digit() {
    let mut g = Game::create(test_field());
    g.set_notes(1, 2, 0x0155);
    let before = g;
    g.toggle_note(1, 2, 0);
    assert_eq!(before, g);
    g.toggle_note(1, 2, 10);
    assert_eq!(before, g);
    g.toggle_note(1, 2, 17);
    assert_eq!(before, g);
    g.toggle_note(1, 2, 255);
    assert_eq!(before, g);
}

#[test]
fn empty_grid_is_valid() {
    let g = Game::create([0u8; 81]);
    assert!(g.is_valid());
    assert!(Game::create(Numbers::empty()).is_valid());
}

#[test]
fn validation_pattern_is_valid() {
    assert!(Game::create(validation_pattern()).is_valid());
}

#[test]
fn another_one_anywhere_makes_the_pattern_invalid() {
    let mut tried = 0;
    for index in 0..81usize {
        if validation_pattern()[index] != 0 {
            continue;
        }
        let (row, col) = Game::cell_index_to_coords(index);
        let mut g = Game::create(validation_pattern());
        assert!(g.set(row, col, 1));
        assert_eq!(false, g.is_valid());
        // Another digit in the same cell clashes with nothing.
        assert!(g.set(row, col, 2));
        assert_eq!(true, g.is_valid());
        tried += 1;
    }
    assert_eq!(72, tried);
}

#[test]
fn clearing_the_duplicate_makes_the_grid_valid_again() {
    let mut g = Game::create(test_field());
    assert!(g.is_valid());
    g.set(1, 4, 1);
    assert_eq!(false, g.is_valid());
    g.set(1, 4, 0);
    assert!(g.is_valid());
    g.set(4, 1, 9);
    assert_eq!(false, g.is_valid());
}

#[test]
fn duplicate_clues_are_invalid_from_the_start() {
    let mut field = [0u8; 81];
    field[0] = 4;
    field[80] = 4;
    assert!(Game::create(field).is_valid());
    field[8] = 4;
    assert_eq!(false, Game::create(field).is_valid());
}

#[test]
fn nums_uniq_looks_at_nonzero_values_only() {
    assert!(nums_uniq(&[]));
    assert!(nums_uniq(&[0, 0, 0, 0, 0, 0, 0, 0, 0]));
    assert!(nums_uniq(&[1, 2, 3, 4, 5, 6, 7, 8, 9]));
    assert!(nums_uniq(&[9, 0, 0, 1, 0, 0, 0, 0, 0]));
    assert_eq!(false, nums_uniq(&[1, 0, 0, 0, 0, 0, 0, 0, 1]));
    assert_eq!(false, nums_uniq(&[0, 9, 9, 0, 0, 0, 0, 0, 0]));
    assert_eq!(false, nums_uniq(&[5, 1, 2, 3, 5, 0, 0, 0, 0]));
}

#[test]
fn note_flags_show_each_candidate() {
    assert_eq!(None, note_flags(0));
    assert_eq!(Some([true; 9]), note_flags(0x01FF));
    assert_eq!(
        Some([false, true, true, false, true, false, true, false, false]),
        note_flags(0x0056)
    );
    for digit in 1..=9usize {
        let mut expected = [false; 9];
        expected[digit - 1] = true;
        assert_eq!(Some(expected), note_flags(1 << (digit - 1)));
    }
    // Bits beyond the ninth stand for no digit.
    assert_eq!(Some([false; 9]), note_flags(0x0200));
    assert_eq!(Some([true, false, false, false, false, false, false, false, false]), note_flags(0x8001));
}

#[test]
fn key_input_maps_delete_and_digits() {
    assert_eq!(Some((0, false)), key_input(46, false));
    assert_eq!(Some((0, false)), key_input(46, true));
    for digit in 0..=9u8 {
        assert_eq!(Some((digit, false)), key_input(48 + digit as u32, false));
        assert_eq!(Some((digit, true)), key_input(48 + digit as u32, true));
    }
    assert_eq!(None, key_input(45, false));
    assert_eq!(None, key_input(47, true));
    assert_eq!(None, key_input(58, false));
    assert_eq!(None, key_input(0, false));
    assert_eq!(None, key_input(65, true));
    assert_eq!(None, key_input(u32::MAX, false));
}
