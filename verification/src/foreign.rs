use vstd::prelude::*;

verus! {

/// Whether `c` has the Unicode `White_Space` property, which is what
/// `char::is_whitespace` decides.
pub uninterp spec fn unicode_white_space(c: char) -> bool;

/// Calls `char::is_whitespace`. Its documentation says that the result is whether the
/// character has the Unicode `White_Space` property, named here `unicode_white_space`,
/// and gives as examples that a space, a line feed and a no-break space are white space
/// and that '越' is not; those examples are stated too. The list of white-space
/// characters itself is left unsaid: it lives in the Unicode database, not in the
/// documentation.
#[verifier::external_body]
pub fn char_is_whitespace(c: char) -> (r: bool)
    ensures
        r == unicode_white_space(c),
        c == ' ' ==> r,
        c == '\n' ==> r,
        c == '\u{A0}' ==> r,
        c == '越' ==> !r,
{
    c.is_whitespace()
}

/// The text that `unindent::unindent` makes of `s`: the common leading spaces and tabs
/// of the lines after the first are removed.
pub uninterp spec fn unindented(s: Seq<char>) -> Seq<char>;

/// Calls `unindent::unindent`. Its result depends on its argument alone and is named
/// `unindented`; how it computes it (which lines count when the common indentation is
/// measured, how the first line and line endings are treated) is left unsaid.
#[verifier::external_body]
pub fn unindent(s: &str) -> (r: String)
    ensures
        r@ == unindented(s@),
{
    unindent::unindent(s)
}

} // verus!
