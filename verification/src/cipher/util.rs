//! Character shifting shared by the substitution ciphers.

use vstd::prelude::*;

verus! {

/// An ASCII upper-case letter.
pub open spec fn is_upper(c: char) -> bool {
    65 <= c as int <= 90
}

/// An ASCII lower-case letter.
pub open spec fn is_lower(c: char) -> bool {
    97 <= c as int <= 122
}

/// An ASCII letter.
pub open spec fn is_letter(c: char) -> bool {
    is_upper(c) || is_lower(c)
}

/// The letter `amount` places after `c` in the alphabet, wrapping around
/// and keeping the case; any other character is unchanged.
pub open spec fn spec_shift_char(c: char, amount: u8) -> char {
    if is_upper(c) {
        ((c as int - 65 + amount) % 26 + 65) as char
    } else if is_lower(c) {
        ((c as int - 97 + amount) % 26 + 97) as char
    } else {
        c
    }
}

/// Shifts a single character by `amount`, wrapping A-Z and a-z.
/// Non-alphabetic characters are returned unchanged.
pub fn shift_char(c: char, amount: u8) -> (r: char)
    ensures
        r == spec_shift_char(c, amount),
{
    let v = c as u32;
    if 65 <= v && v <= 90 {
        ((((v - 65 + amount as u32) % 26 + 65) as u8) as char)
    } else if 97 <= v && v <= 122 {
        ((((v - 97 + amount as u32) % 26 + 97) as u8) as char)
    } else {
        c
    }
}


} // verus!
