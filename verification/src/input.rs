use vstd::prelude::*;

verus! {

/// The key code of the delete key.
pub const KEY_DELETE: u32 = 46;

/// The key code of the digit 0; the other digits follow it in order.
pub const KEY_ZERO: u32 = 48;

/// The key code of the digit 9.
pub const KEY_NINE: u32 = 57;

/// What a key pressed on a cell asks for: the value to enter, and whether it
/// is meant as a candidate rather than as the cell's digit. The delete key
/// clears the cell, a digit key enters its digit, as a candidate if the
/// control key is held, and any other key asks for nothing.
pub open spec fn key_meaning(key_code: u32, ctrl_key: bool) -> Option<(u8, bool)> {
    if key_code == KEY_DELETE {
        Some((0u8, false))
    } else if KEY_ZERO <= key_code <= KEY_NINE {
        Some(((key_code - KEY_ZERO) as u8, ctrl_key))
    } else {
        None
    }
}

/// Works out what a key pressed on a cell asks for.
pub fn key_input(key_code: u32, ctrl_key: bool) -> (input: Option<(u8, bool)>)
    ensures
        input == key_meaning(key_code, ctrl_key),
{
    if key_code == KEY_DELETE {
        Some((0, false))
    } else if KEY_ZERO <= key_code && key_code <= KEY_NINE {
        let input_val: u8 = (key_code - KEY_ZERO) as u8;
        Some((input_val, ctrl_key))
    } else {
        None
    }
}

} // verus!
