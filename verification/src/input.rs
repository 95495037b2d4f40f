//! The keystroke filter of the input source: decimal digits are forwarded
//! to the round loop, every other key is discarded.

use vstd::prelude::*;

verus! {

/// The digit carried by a keystroke: `Some` for `'0'..='9'`, `None` for
/// every other character.
pub open spec fn spec_digit_of_key(c: char) -> Option<u8> {
    if 48 <= c as u32 <= 57 {
        Some(((c as u32) - 48) as u8)
    } else {
        None
    }
}

/// Decide whether a keystroke carries a decimal digit, and which.
pub fn digit_of_key(c: char) -> (r: Option<u8>)
    ensures
        r == spec_digit_of_key(c),
        r matches Some(d) ==> d <= 9,
{
    let u = c as u32;
    if 48 <= u && u <= 57 {
        Some((u - 48) as u8)
    } else {
        None
    }
}

} // verus!
