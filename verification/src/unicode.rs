//! Unicode character classes and case mappings of the standard library.
//!
//! Their results follow Unicode tables and are named here rather than
//! written out; each depends on its argument alone.
use vstd::prelude::*;

verus! {

/// What `char::is_alphanumeric` answers for `c`.
pub uninterp spec fn unicode_is_alphanumeric(c: char) -> bool;

/// What `str::to_lowercase` returns for a string with the characters `s`.
pub uninterp spec fn unicode_lowercase(s: Seq<char>) -> Seq<char>;

/// The characters that `char::to_uppercase` yields for `c`.
pub uninterp spec fn unicode_uppercase(c: char) -> Seq<char>;

/// Whether `c` is alphabetic or numeric in the Unicode sense.
///
/// Trusted: calls `char::is_alphanumeric`; the contract only names its
/// answer.
#[verifier::external_body]
pub(crate) fn is_alphanumeric(c: char) -> (b: bool)
    ensures
        b == unicode_is_alphanumeric(c),
{
    c.is_alphanumeric()
}

/// The Unicode lowercase form of `s`.
///
/// Trusted: calls `str::to_lowercase`; the contract only names its result.
#[verifier::external_body]
pub(crate) fn to_lowercase(s: &str) -> (r: String)
    ensures
        r@ == unicode_lowercase(s@),
{
    s.to_lowercase()
}

/// Appends the Unicode uppercase form of `c` to `s`.
///
/// Trusted: calls `char::to_uppercase` and appends the characters it
/// yields; the contract says that `s` grows by exactly those characters and
/// names them.
#[verifier::external_body]
pub(crate) fn push_uppercase(s: &mut String, c: char)
    ensures
        final(s)@ == old(s)@ + unicode_uppercase(c),
{
    s.extend(c.to_uppercase());
}

} // verus!
