//! The two string functions of the standard library that this library calls
//! on trust. Nothing here is proved: each contract states what the
//! documentation of the function says.
use vstd::prelude::*;

verus! {

/// The lowercase form of a text, as `str::to_lowercase` of the standard
/// library gives it. It follows the Unicode tables, so it is named here and
/// not defined.
pub uninterp spec fn lowercase_of(text: Seq<char>) -> Seq<char>;

/// Trusted: `str::to_lowercase` of the standard library. The result is a
/// function of the text alone; the contract gives it the name `lowercase_of`
/// and claims nothing more of it.
#[verifier::external_body]
pub(crate) fn to_lowercase(text: &str) -> (r: String)
    ensures
        r@ == lowercase_of(text@),
{
    text.to_lowercase()
}

/// Trusted: `String::push` of the standard library, which appends one
/// character to the end of the string and leaves the rest as it was.
#[verifier::external_body]
pub(crate) fn push_char(text: &mut String, c: char)
    ensures
        final(text)@ == old(text)@.push(c),
{
    text.push(c)
}

} // verus!
