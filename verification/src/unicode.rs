//! Unicode services of outside code: NFKC normalization (`unicode_normalization`) and
//! the standard library's character case mapping, `Debug` quoting and string building.
use unicode_normalization::UnicodeNormalization;
use crate::text::{ascii_chars, ascii_lower_char};
use vstd::prelude::*;

verus! {

/// The NFKC normal form that `unicode_normalization` computes for a character sequence.
pub uninterp spec fn nfkc(s: Seq<char>) -> Seq<char>;

/// The characters of `char::to_lowercase` for one character.
pub uninterp spec fn char_lowercase(c: char) -> Seq<char>;

/// The text that `{:?}` (`<str as Debug>::fmt`) writes for a string: the string in
/// double quotes with escapes.
pub uninterp spec fn str_debug(s: Seq<char>) -> Seq<char>;

/// Calls `UnicodeNormalization::nfkc` of `unicode_normalization` on the characters and
/// collects the result. Claimed: the result is `nfkc` of the input, a function of the
/// input alone; an empty input gives an empty result (the iterator has nothing to
/// decompose), and text of ASCII characters only is returned unchanged (ASCII characters
/// have no decomposition and compose with nothing; the crate's quick check answers `Yes`
/// for them). Nothing more is claimed about the normal form.
#[verifier::external_body]
pub(crate) fn nfkc_chars(s: &Vec<char>) -> (r: Vec<char>)
    ensures
        r@ == nfkc(s@),
        s@.len() == 0 ==> r@.len() == 0,
        ascii_chars(s@) ==> r@ == s@,
{
    s.iter().copied().nfkc().collect()
}

/// Calls `char::to_lowercase` and collects the characters it yields. Claimed: the
/// result is `char_lowercase(c)`, a function of `c` alone; for an ASCII character it is
/// that character's ASCII lowercase (an uppercase letter maps to its lowercase letter,
/// any other ASCII character, having no lowercase mapping, to itself).
#[verifier::external_body]
pub(crate) fn lowercase_of(c: char) -> (r: Vec<char>)
    ensures
        r@ == char_lowercase(c),
        (c as u32) < 0x80 ==> r@ == seq![ascii_lower_char(c)],
{
    c.to_lowercase().collect()
}

/// Formats a string with `{:?}`. Claimed: the result is `str_debug` of the string.
#[verifier::external_body]
pub(crate) fn debug_quoted(s: &str) -> (r: String)
    ensures
        r@ == str_debug(s@),
{
    format!("{:?}", s)
}

/// Collects characters into a `String` (`FromIterator<char> for String`). Claimed:
/// the string holds exactly these characters, in order.
#[verifier::external_body]
pub(crate) fn string_from_chars(v: &Vec<char>) -> (r: String)
    ensures
        r@ == v@,
{
    v.iter().collect()
}

} // verus!
