//! The few standard-library text operations whose behaviour rests on the
//! Unicode tables shipped with `std`. Each is reached through one small
//! wrapper; the tables themselves are not restated here, only named.
use vstd::prelude::*;

verus! {

/// Whether `c` has the Unicode `White_Space` property, as `char::is_whitespace`
/// decides it.
pub uninterp spec fn white_space(c: char) -> bool;

/// The lowercase mapping of a whole string, as `str::to_lowercase` computes it.
pub uninterp spec fn lowercase(s: Seq<char>) -> Seq<char>;

/// The uppercase mapping of one character (one or more characters), as
/// `char::to_uppercase` yields it.
pub uninterp spec fn uppercase(c: char) -> Seq<char>;

/// Calls `char::is_whitespace`. Claimed: the answer is `white_space(c)`, a
/// fixed function of `c` (the Unicode `White_Space` property). Which characters
/// have the property is left to `std`'s tables and not restated.
#[verifier::external_body]
pub(crate) fn is_whitespace(c: char) -> (r: bool)
    ensures
        r == white_space(c),
{
    c.is_whitespace()
}

/// Calls `str::to_lowercase`. Claimed: the result is `lowercase(s@)`, a fixed
/// function of the text. The Unicode lowercase mapping itself is not restated.
#[verifier::external_body]
pub(crate) fn to_lowercase(s: &str) -> (r: String)
    ensures
        r@ == lowercase(s@),
{
    s.to_lowercase()
}

/// Calls `char::to_uppercase` and collects what it yields. Claimed: the result
/// is `uppercase(c)`, a fixed function of `c`. The Unicode uppercase mapping
/// itself is not restated.
#[verifier::external_body]
pub(crate) fn to_uppercase(c: char) -> (r: String)
    ensures
        r@ == uppercase(c),
{
    c.to_uppercase().collect()
}

/// Calls `String::push`. Claimed: the string afterwards is the old one with
/// `c` appended, as the documentation of `push` states.
#[verifier::external_body]
pub(crate) fn push_char(s: &mut String, c: char)
    ensures
        final(s)@ == old(s)@.push(c),
{
    s.push(c);
}

} // verus!
