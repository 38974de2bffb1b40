//! What the standard library knows of characters, case and UTF-8, as far
//! as the library uses it. Nothing in this file is proved.

use vstd::prelude::*;
use vstd::string::StringSliceAdditionalSpecFns;
use vstd::utf8::valid_utf8;

verus! {

/// Whether Unicode has the character as an uppercase one.
pub uninterp spec fn is_uppercase_char(c: char) -> bool;

/// The lowercase of a character in Unicode: one character or several.
pub uninterp spec fn lowercase_chars(c: char) -> Seq<char>;

/// The lowercase of a text in Unicode.
pub uninterp spec fn lowercase_text(s: Seq<char>) -> Seq<char>;

/// `String::push`: appends one character.
#[verifier::external_body]
pub(crate) fn string_push(s: &mut String, c: char)
    ensures
        final(s)@ == old(s)@.push(c),
{
    s.push(c)
}

/// `char::is_uppercase`: whether the character has the property
/// `Uppercase` of Unicode.
#[verifier::external_body]
pub(crate) fn char_is_uppercase(c: char) -> (r: bool)
    ensures
        r == is_uppercase_char(c),
{
    c.is_uppercase()
}

/// `char::to_lowercase`: the lowercase of the character, as the characters
/// that the iterator hands out.
#[verifier::external_body]
pub(crate) fn char_to_lowercase(c: char) -> (r: Vec<char>)
    ensures
        r@ == lowercase_chars(c),
{
    c.to_lowercase().collect()
}

/// `core::str::from_utf8`: the slice as text where it holds well-formed
/// UTF-8, and nothing where it does not. The text is made of the same bytes.
#[verifier::external_body]
pub(crate) fn str_from_utf8(bytes: &[u8]) -> (r: Option<&str>)
    ensures
        r.is_some() <==> valid_utf8(bytes@),
        r matches Some(s) ==> s.spec_bytes() == bytes@,
{
    match core::str::from_utf8(bytes) {
        Ok(s) => Some(s),
        Err(_) => None,
    }
}

/// `str::to_lowercase`: the lowercase of the text.
#[verifier::external_body]
pub(crate) fn str_to_lowercase(s: &str) -> (r: String)
    ensures
        r@ == lowercase_text(s@),
{
    s.to_lowercase()
}

} // verus!
