//! Character classification used by the byte-size parser.
//!
//! Within ASCII the two classes (alphabetic, whitespace) are stated exactly;
//! beyond ASCII they are left as named properties of the character, supplied
//! by the standard library's Unicode tables.

use vstd::prelude::*;

verus! {

/// Whether a character outside the ASCII range has the Unicode `Alphabetic` property.
pub uninterp spec fn alpha_outside_ascii(c: char) -> bool;

/// Whether a character outside the ASCII range has the Unicode `White_Space` property.
pub uninterp spec fn white_outside_ascii(c: char) -> bool;

/// An alphabetic character: within ASCII exactly the letters, beyond ASCII
/// whatever the Unicode `Alphabetic` property says.
pub open spec fn is_alpha_char(c: char) -> bool {
    if (c as u32) < 128 {
        (97 <= c as u32 && c as u32 <= 122) || (65 <= c as u32 && c as u32 <= 90)
    } else {
        alpha_outside_ascii(c)
    }
}

/// A whitespace character: within ASCII exactly space, tab, line feed,
/// vertical tab, form feed and carriage return, beyond ASCII whatever the
/// Unicode `White_Space` property says.
pub open spec fn is_white_char(c: char) -> bool {
    if (c as u32) < 128 {
        c as u32 == 32 || (9 <= c as u32 && c as u32 <= 13)
    } else {
        white_outside_ascii(c)
    }
}

/// Relies on `char::is_alphabetic`: within ASCII the Unicode `Alphabetic`
/// property holds exactly of the letters `a`-`z` and `A`-`Z`; beyond ASCII the
/// result depends on the character alone.
#[verifier::external_body]
pub(crate) fn char_is_alphabetic(c: char) -> (r: bool)
    ensures
        r == is_alpha_char(c),
        c as u32 >= 128 ==> r == alpha_outside_ascii(c),
{
    c.is_alphabetic()
}

/// Relies on `char::is_whitespace`: within ASCII the Unicode `White_Space`
/// property holds exactly of space, tab, line feed, vertical tab, form feed
/// and carriage return; beyond ASCII the result depends on the character alone.
#[verifier::external_body]
pub(crate) fn char_is_whitespace(c: char) -> (r: bool)
    ensures
        r == is_white_char(c),
        c as u32 >= 128 ==> r == white_outside_ascii(c),
{
    c.is_whitespace()
}

/// An ASCII decimal digit.
pub open spec fn is_digit_char(c: char) -> bool {
    48 <= c as u32 && c as u32 <= 57
}

/// The numeric value of an ASCII decimal digit.
pub open spec fn digit_val(c: char) -> nat {
    (c as u32 - 48) as nat
}

} // verus!
