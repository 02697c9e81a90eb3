//! Specifications for the few `std` string and character operations the
//! library uses and `vstd` does not cover.

use vstd::prelude::*;

verus! {

/// Relies on `String::push`: appends exactly the given character.
pub assume_specification[ String::push ](s: &mut String, ch: char)
    ensures
        final(s)@ == old(s)@.push(ch),
;

/// True when `x` is a Unicode scalar value, i.e. a valid `char`.
pub open spec fn is_unicode_scalar(x: u32) -> bool {
    x < 0xD800 || (0xE000 <= x && x <= 0x10FFFF)
}

/// The character whose scalar value is `x`.
pub open spec fn char_of(x: u32) -> char {
    choose|c: char| #[trigger] (c as u32) == x
}

/// Relies on `char::from_u32`: returns the character with scalar value `x`
/// exactly when `x` is a Unicode scalar value.
pub assume_specification[ char::from_u32 ](x: u32) -> (r: Option<char>)
    ensures
        r is Some <==> is_unicode_scalar(x),
        r is Some ==> r->0 as u32 == x,
;

/// A character with scalar value `x` pins `char_of(x)` down to itself.
pub proof fn lemma_char_of(x: u32, c: char)
    requires
        c as u32 == x,
    ensures
        char_of(x) == c,
{
    assert(exists|ch: char| #[trigger] (ch as u32) == x);
    let w = char_of(x);
    assert(w as u32 == x);
}

} // verus!
