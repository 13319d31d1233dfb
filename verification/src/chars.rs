//! Character classification and UTF-8 width, the trusted boundary of the
//! crate.
//!
//! The scanners only ever ask three questions of a character: is it
//! whitespace, is it alphanumeric, and how many bytes does its UTF-8
//! encoding take. The first two are Unicode properties whose full tables
//! cannot reasonably be restated here, so they are given opaque names;
//! the third is pinned to the UTF-8 encoding that `vstd::utf8` defines.

use vstd::prelude::*;
use vstd::utf8::encode_scalar;

verus! {

/// Whether `c` has the Unicode White_Space property. The property is a
/// function of the character alone; its table is not restated here.
pub uninterp spec fn char_whitespace(c: char) -> bool;

/// Whether `c` is in the Unicode Alphabetic or Number categories. The
/// property is a function of the character alone; its table is not
/// restated here.
pub uninterp spec fn char_alphanumeric(c: char) -> bool;

/// Relies on char::is_whitespace: whether a character has the White_Space
/// property depends on the character alone.
pub assume_specification[ char::is_whitespace ](c: char) -> (r: bool)
    ensures
        r == char_whitespace(c),
;

/// Relies on char::is_alphanumeric: whether a character is alphanumeric
/// depends on the character alone.
pub assume_specification[ char::is_alphanumeric ](c: char) -> (r: bool)
    ensures
        r == char_alphanumeric(c),
;

/// The number of bytes in the UTF-8 encoding of `c`.
pub open spec fn char_utf8_len(c: char) -> int {
    encode_scalar(c as u32).len() as int
}

/// Relies on char::len_utf8: it returns the number of bytes this character
/// takes when encoded as UTF-8, which is the length of its encoding.
pub assume_specification[ char::len_utf8 ](c: char) -> (r: usize)
    ensures
        r == char_utf8_len(c),
;

/// A character's UTF-8 encoding takes between one and four bytes.
pub proof fn lemma_char_utf8_len_bounds(c: char)
    ensures
        1 <= char_utf8_len(c) <= 4,
{
}

} // verus!
