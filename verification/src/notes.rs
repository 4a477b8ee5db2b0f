use crate::units::same_unit;
use vstd::prelude::*;

verus! {

/// The mask that holds all nine candidates.
pub const ALL_NOTES: u16 = 0x01FF;

/// The single bit that stands for `digit` in a candidate mask: bit `digit - 1`
/// for the digits 1 to 9, and no bit for anything else.
pub open spec fn note_bit(digit: int) -> u16 {
    if digit == 1 {
        0x0001
    } else if digit == 2 {
        0x0002
    } else if digit == 3 {
        0x0004
    } else if digit == 4 {
        0x0008
    } else if digit == 5 {
        0x0010
    } else if digit == 6 {
        0x0020
    } else if digit == 7 {
        0x0040
    } else if digit == 8 {
        0x0080
    } else if digit == 9 {
        0x0100
    } else {
        0
    }
}

/// Whether `mask` keeps `digit` as a candidate.
pub open spec fn has_note(mask: u16, digit: int) -> bool {
    mask & note_bit(digit) != 0
}

/// The digit that a mask with exactly one of the nine bits stands for.
pub open spec fn single_note(mask: u16) -> Option<u8> {
    if mask == 0x0001 {
        Some(1u8)
    } else if mask == 0x0002 {
        Some(2u8)
    } else if mask == 0x0004 {
        Some(3u8)
    } else if mask == 0x0008 {
        Some(4u8)
    } else if mask == 0x0010 {
        Some(5u8)
    } else if mask == 0x0020 {
        Some(6u8)
    } else if mask == 0x0040 {
        Some(7u8)
    } else if mask == 0x0080 {
        Some(8u8)
    } else if mask == 0x0100 {
        Some(9u8)
    } else {
        None
    }
}

/// Whether `digit` stands in a cell that shares a row, column or box with the
/// cell at `index`.
pub open spec fn digit_seen(cells: Seq<u8>, index: int, digit: int) -> bool {
    exists|other: int| 0 <= other < 81 && #[trigger] same_unit(index, other) && cells[other] == digit
}

/// The bit of `digit` if no cell that shares a unit with `index` holds it.
pub open spec fn free_bit(cells: Seq<u8>, index: int, digit: int) -> u16 {
    if digit_seen(cells, index, digit) {
        0
    } else {
        note_bit(digit)
    }
}

/// The candidates of the cell at `index`: every digit from 1 to 9 that no cell
/// of its row, column and box holds.
pub open spec fn candidates(cells: Seq<u8>, index: int) -> u16 {
    free_bit(cells, index, 1) | free_bit(cells, index, 2) | free_bit(cells, index, 3)
        | free_bit(cells, index, 4) | free_bit(cells, index, 5) | free_bit(cells, index, 6)
        | free_bit(cells, index, 7) | free_bit(cells, index, 8) | free_bit(cells, index, 9)
}

/// One of the nine bits that a candidate mask is made of.
pub open spec fn is_note_bit(bit: u16) -> bool {
    bit == 0x0001 || bit == 0x0002 || bit == 0x0004 || bit == 0x0008 || bit == 0x0010
        || bit == 0x0020 || bit == 0x0040 || bit == 0x0080 || bit == 0x0100
}

/// The bit of a digit is 1 shifted left by one less than the digit.
pub proof fn lemma_note_bit_is_shift(digit: u16)
    requires
        1 <= digit <= 9,
    ensures
        note_bit(digit as int) == 1u16 << ((digit - 1) as u16),
        is_note_bit(note_bit(digit as int)),
{
    assert(1u16 << 0u16 == 0x0001) by (bit_vector);
    assert(1u16 << 1u16 == 0x0002) by (bit_vector);
    assert(1u16 << 2u16 == 0x0004) by (bit_vector);
    assert(1u16 << 3u16 == 0x0008) by (bit_vector);
    assert(1u16 << 4u16 == 0x0010) by (bit_vector);
    assert(1u16 << 5u16 == 0x0020) by (bit_vector);
    assert(1u16 << 6u16 == 0x0040) by (bit_vector);
    assert(1u16 << 7u16 == 0x0080) by (bit_vector);
    assert(1u16 << 8u16 == 0x0100) by (bit_vector);
}

/// The empty mask keeps no candidate.
pub proof fn lemma_no_notes(digit: int)
    ensures
        !has_note(0, digit),
{
    let probe = note_bit(digit);
    assert(0u16 & probe == 0) by (bit_vector);
}

/// A mask stands for a single digit exactly when it is that digit's bit.
pub proof fn lemma_single_note(mask: u16, digit: u8)
    ensures
        single_note(mask) == Some(digit) <==> 1 <= digit <= 9 && mask == note_bit(digit as int),
{
}

/// Adding the bit of `value` to a mask adds `value` to its candidates and
/// changes nothing else.
pub proof fn lemma_add_note(mask: u16, value: int, digit: int)
    requires
        1 <= value <= 9,
        1 <= digit <= 9,
    ensures
        has_note(mask | note_bit(value), digit) <==> has_note(mask, digit) || value == digit,
{
    let added = note_bit(value);
    let probe = note_bit(digit);
    assert(added == probe <==> value == digit);
    assert(((mask | added) & probe != 0) <==> ((mask & probe != 0) || added == probe))
        by (bit_vector)
        requires
            is_note_bit(added),
            is_note_bit(probe),
    ;
}

/// Flipping the bit of `value` flips that candidate and no other, and
/// flipping it twice changes nothing.
pub proof fn lemma_flip_note(mask: u16, value: int, digit: int)
    requires
        1 <= value <= 9,
        1 <= digit <= 9,
    ensures
        has_note(mask ^ note_bit(value), digit) <==> (has_note(mask, digit) != (value == digit)),
        (mask ^ note_bit(value)) ^ note_bit(value) == mask,
{
    let flipped = note_bit(value);
    let probe = note_bit(digit);
    assert(flipped == probe <==> value == digit);
    assert(((mask ^ flipped) & probe != 0) <==> ((mask & probe != 0) != (flipped == probe)))
        by (bit_vector)
        requires
            is_note_bit(flipped),
            is_note_bit(probe),
    ;
    assert((mask ^ flipped) ^ flipped == mask) by (bit_vector);
}

/// Clearing three masks out of the full mask keeps exactly the digits that
/// none of the three holds.
pub proof fn lemma_clear_notes(a: u16, b: u16, c: u16, digit: int)
    requires
        1 <= digit <= 9,
    ensures
        ALL_NOTES & !a & !b & !c <= ALL_NOTES,
        has_note(ALL_NOTES & !a & !b & !c, digit) <==> !has_note(a, digit) && !has_note(b, digit)
            && !has_note(c, digit),
{
    let probe = note_bit(digit);
    assert(0x01FFu16 & !a & !b & !c <= 0x01FFu16) by (bit_vector);
    assert(((0x01FFu16 & !a & !b & !c) & probe != 0) <==> (a & probe == 0 && b & probe == 0
        && c & probe == 0)) by (bit_vector)
        requires
            is_note_bit(probe),
    ;
}

/// Two masks of nine bits that keep the same digits are the same mask.
pub proof fn lemma_same_notes(m: u16, n: u16)
    requires
        m <= ALL_NOTES,
        n <= ALL_NOTES,
        forall|digit: int| 1 <= digit <= 9 ==> (has_note(m, digit) <==> has_note(n, digit)),
    ensures
        m == n,
{
    assert(has_note(m, 1) <==> has_note(n, 1));
    assert(has_note(m, 2) <==> has_note(n, 2));
    assert(has_note(m, 3) <==> has_note(n, 3));
    assert(has_note(m, 4) <==> has_note(n, 4));
    assert(has_note(m, 5) <==> has_note(n, 5));
    assert(has_note(m, 6) <==> has_note(n, 6));
    assert(has_note(m, 7) <==> has_note(n, 7));
    assert(has_note(m, 8) <==> has_note(n, 8));
    assert(has_note(m, 9) <==> has_note(n, 9));
    assert(m == n) by (bit_vector)
        requires
            m <= 0x01FFu16,
            n <= 0x01FFu16,
            (m & 0x0001 != 0) <==> (n & 0x0001 != 0),
            (m & 0x0002 != 0) <==> (n & 0x0002 != 0),
            (m & 0x0004 != 0) <==> (n & 0x0004 != 0),
            (m & 0x0008 != 0) <==> (n & 0x0008 != 0),
            (m & 0x0010 != 0) <==> (n & 0x0010 != 0),
            (m & 0x0020 != 0) <==> (n & 0x0020 != 0),
            (m & 0x0040 != 0) <==> (n & 0x0040 != 0),
            (m & 0x0080 != 0) <==> (n & 0x0080 != 0),
            (m & 0x0100 != 0) <==> (n & 0x0100 != 0),
    ;
}

/// The candidates of a cell fit in nine bits, and keep a digit from 1 to 9
/// exactly when no cell that shares a unit with it holds that digit.
pub proof fn lemma_candidates(cells: Seq<u8>, index: int, digit: int)
    requires
        1 <= digit <= 9,
    ensures
        candidates(cells, index) <= ALL_NOTES,
        has_note(candidates(cells, index), digit) <==> !digit_seen(cells, index, digit),
{
    let p1 = free_bit(cells, index, 1);
    let p2 = free_bit(cells, index, 2);
    let p3 = free_bit(cells, index, 3);
    let p4 = free_bit(cells, index, 4);
    let p5 = free_bit(cells, index, 5);
    let p6 = free_bit(cells, index, 6);
    let p7 = free_bit(cells, index, 7);
    let p8 = free_bit(cells, index, 8);
    let p9 = free_bit(cells, index, 9);
    let all = p1 | p2 | p3 | p4 | p5 | p6 | p7 | p8 | p9;
    assert({
        &&& all <= 0x01FFu16
        &&& (all & 0x0001 != 0) <==> p1 != 0
        &&& (all & 0x0002 != 0) <==> p2 != 0
        &&& (all & 0x0004 != 0) <==> p3 != 0
        &&& (all & 0x0008 != 0) <==> p4 != 0
        &&& (all & 0x0010 != 0) <==> p5 != 0
        &&& (all & 0x0020 != 0) <==> p6 != 0
        &&& (all & 0x0040 != 0) <==> p7 != 0
        &&& (all & 0x0080 != 0) <==> p8 != 0
        &&& (all & 0x0100 != 0) <==> p9 != 0
    }) by (bit_vector)
        requires
            all == p1 | p2 | p3 | p4 | p5 | p6 | p7 | p8 | p9,
            p1 == 0 || p1 == 0x0001,
            p2 == 0 || p2 == 0x0002,
            p3 == 0 || p3 == 0x0004,
            p4 == 0 || p4 == 0x0008,
            p5 == 0 || p5 == 0x0010,
            p6 == 0 || p6 == 0x0020,
            p7 == 0 || p7 == 0x0040,
            p8 == 0 || p8 == 0x0080,
            p9 == 0 || p9 == 0x0100,
    ;
}

/// The candidates of a mask, digit by digit, for showing them: the flag at
/// place `digit - 1` says whether `digit` is a candidate. A mask without any
/// bit has nothing to show.
pub fn note_flags(mask: u16) -> (flags: Option<[bool; 9]>)
    ensures
        flags.is_none() <==> mask == 0,
        flags matches Some(shown) ==> forall|digit: int|
            1 <= digit <= 9 ==> shown@[digit - 1] == has_note(mask, digit),
{
    match mask {
        0 => None,
        x => Some(
            [
                x & 0x0001 > 0,
                x & 0x0002 > 0,
                x & 0x0004 > 0,
                x & 0x0008 > 0,
                x & 0x0010 > 0,
                x & 0x0020 > 0,
                x & 0x0040 > 0,
                x & 0x0080 > 0,
                x & 0x0100 > 0,
            ],
        ),
    }
}

} // verus!
