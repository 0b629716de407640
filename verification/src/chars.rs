//! What the lexer takes from the standard library's `char` and `String`.

use vstd::prelude::*;

verus! {

/// Whether a character beyond ASCII is alphanumeric in the sense of
/// `char::is_alphanumeric`: the Unicode tables decide, and the same
/// character always gets the same answer.
pub uninterp spec fn unicode_alphanumeric(c: char) -> bool;

/// The ASCII letters and digits.
pub open spec fn ascii_alphanumeric(c: char) -> bool {
    ||| 'a' <= c <= 'z'
    ||| 'A' <= c <= 'Z'
    ||| '0' <= c <= '9'
}

/// Whether a character is a letter or a digit: within ASCII the letters
/// `a` to `z` and `A` to `Z` and the digits `0` to `9`, beyond ASCII what
/// Unicode classes as alphabetic or numeric.
pub open spec fn alphanumeric(c: char) -> bool {
    if c <= '\x7f' {
        ascii_alphanumeric(c)
    } else {
        unicode_alphanumeric(c)
    }
}

/// `char::is_alphanumeric` of the standard library, which is true of the
/// characters with Unicode's Alphabetic property or a numeric general
/// category. Nothing here is proved: the contract spells the answer out for
/// ASCII, where those classes are the letters and digits, and names it for
/// every other character.
pub assume_specification[ char::is_alphanumeric ](c: char) -> (b: bool)
    ensures
        b == if c <= '\x7f' {
            ascii_alphanumeric(c)
        } else {
            unicode_alphanumeric(c)
        },
;

/// `String::push` of the standard library, which appends one character to
/// the end of the string. Nothing here is proved.
pub assume_specification[ String::push ](s: &mut String, c: char)
    ensures
        final(s)@ == old(s)@.push(c),
;

} // verus!
