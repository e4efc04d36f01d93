//! Textual helpers: quoting of strings and characters for messages.

use vstd::prelude::*;

verus! {

/// What `<str as Debug>::fmt` writes for a string: the string in double
/// quotes, with the characters that need it escaped.
pub uninterp spec fn debug_quoted_str(s: Seq<char>) -> Seq<char>;

/// What `<char as Debug>::fmt` writes for a character: the character in
/// single quotes, escaped where it needs it.
pub uninterp spec fn debug_quoted_char(c: char) -> Seq<char>;

/// Formats `s` with std's `Debug` for `str` (`format!("{:?}", s)`).
///
/// Trusted: the result is the value that `debug_quoted_str` names for the
/// characters of `s`; the escaping rules themselves are std's and are not
/// restated here.
#[verifier::external_body]
pub fn debug_str(s: &str) -> (r: String)
    ensures
        r@ == debug_quoted_str(s@),
{
    format!("{:?}", s)
}

/// Formats `c` with std's `Debug` for `char` (`format!("{:?}", c)`).
///
/// Trusted: the result is the value that `debug_quoted_char` names for `c`.
#[verifier::external_body]
pub fn debug_char(c: char) -> (r: String)
    ensures
        r@ == debug_quoted_char(c),
{
    format!("{:?}", c)
}

} // verus!
