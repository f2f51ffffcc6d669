use vstd::prelude::*;

use crate::text::{from_chars, to_chars};

verus! {

/// What `str::to_uppercase` returns for a text: its Unicode upper case.
pub uninterp spec fn uppercase(s: Seq<char>) -> Seq<char>;

/// What `str::to_lowercase` returns for a text: its Unicode lower case.
pub uninterp spec fn lowercase(s: Seq<char>) -> Seq<char>;

/// What `char::is_alphanumeric` returns: whether the character is alphabetic
/// or numeric in Unicode.
pub uninterp spec fn alphanumeric(c: char) -> bool;

/// Calls `str::to_uppercase`; claims only that the result is `uppercase` of the text.
#[verifier::external_body]
fn str_to_uppercase(s: &str) -> (r: String)
    ensures
        r@ == uppercase(s@),
{
    s.to_uppercase()
}

/// Calls `str::to_lowercase`; claims only that the result is `lowercase` of the text.
#[verifier::external_body]
fn str_to_lowercase(s: &str) -> (r: String)
    ensures
        r@ == lowercase(s@),
{
    s.to_lowercase()
}

/// Calls `char::is_alphanumeric`; claims only that the result is `alphanumeric` of the character.
#[verifier::external_body]
pub(crate) fn char_is_alphanumeric(c: char) -> (r: bool)
    ensures
        r == alphanumeric(c),
{
    c.is_alphanumeric()
}

/// The upper case of `s`.
pub fn upper_chars(s: &Vec<char>) -> (r: Vec<char>)
    ensures
        r@ == uppercase(s@),
{
    let st = from_chars(s);
    let u = str_to_uppercase(st.as_str());
    to_chars(u.as_str())
}

/// The lower case of `s`.
pub fn lower_chars(s: &Vec<char>) -> (r: Vec<char>)
    ensures
        r@ == lowercase(s@),
{
    let st = from_chars(s);
    let u = str_to_lowercase(st.as_str());
    to_chars(u.as_str())
}

} // verus!
