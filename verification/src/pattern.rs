use vstd::prelude::*;

verus! {

#[verifier::external_type_specification]
#[verifier::external_body]
pub struct ExRegex(regex::Regex);

/// Whether `regex::Regex::new` accepts `pattern`.
pub uninterp spec fn regex_compiles(pattern: Seq<char>) -> bool;

/// What `regex::Regex::is_match` returns on `text` for the regex compiled from `pattern`.
pub uninterp spec fn regex_is_match(pattern: Seq<char>, text: Seq<char>) -> bool;

/// What `regex::Regex::replace_all` returns on `text` with replacement `rep`, for the
/// regex compiled from `pattern`.
pub uninterp spec fn regex_replace_all(pattern: Seq<char>, text: Seq<char>, rep: Seq<char>) -> Seq<
    char,
>;

/// A regular expression together with the pattern it was compiled from; only
/// `compile` makes one.
pub struct Pattern {
    re: regex::Regex,
    source: Ghost<Seq<char>>,
}

impl Pattern {
    /// The pattern this regular expression was compiled from.
    pub closed spec fn source(&self) -> Seq<char> {
        self.source@
    }
}

/// Calls `regex::Regex::new`; claims that it succeeds exactly where `regex_compiles`
/// holds, and that the result remembers its pattern.
#[verifier::external_body]
pub(crate) fn compile(pattern: &str) -> (r: Option<Pattern>)
    ensures
        r is Some <==> regex_compiles(pattern@),
        r matches Some(p) ==> p.source() == pattern@,
{
    match regex::Regex::new(pattern) {
        Ok(re) => Some(Pattern { re, source: Ghost(pattern@) }),
        Err(_) => None,
    }
}

/// Calls `regex::Regex::is_match`; claims that the result is `regex_is_match` of the
/// pattern and the text.
#[verifier::external_body]
pub(crate) fn is_match(p: &Pattern, text: &str) -> (r: bool)
    ensures
        r == regex_is_match(p.source(), text@),
{
    p.re.is_match(text)
}

/// Calls `regex::Regex::replace_all`; claims that the result is `regex_replace_all` of
/// the pattern, the text and the replacement.
#[verifier::external_body]
pub(crate) fn replace_all(p: &Pattern, text: &str, rep: &str) -> (r: String)
    ensures
        r@ == regex_replace_all(p.source(), text@, rep@),
{
    p.re.replace_all(text, rep).into_owned()
}

} // verus!
