use vstd::prelude::*;

use crate::pattern::{compile, is_match, regex_compiles, regex_is_match};
use crate::text::string_of;

verus! {

/// A short-circuit rule: where the output matches `success_pattern` and not
/// `error_pattern`, all of it is replaced by `ok_message`.
pub struct MatchOutputRule {
    pub success_pattern: &'static str,
    pub error_pattern: &'static str,
    pub ok_message: &'static str,
}

/// `pattern` compiles and matches `text`.
pub open spec fn pattern_matches(pattern: Seq<char>, text: Seq<char>) -> bool {
    regex_compiles(pattern) && regex_is_match(pattern, text)
}

/// The rule applies to `output`.
pub open spec fn rule_fires(rule: MatchOutputRule, output: Seq<char>) -> bool {
    pattern_matches(rule.success_pattern@, output) && !pattern_matches(rule.error_pattern@, output)
}

/// The message of the first rule that applies to `output`, if any.
pub open spec fn first_firing(rules: Seq<MatchOutputRule>, output: Seq<char>) -> Option<Seq<char>>
    decreases rules.len(),
{
    if rules.len() == 0 {
        None
    } else if rule_fires(rules[0], output) {
        Some(rules[0].ok_message@)
    } else {
        first_firing(rules.drop_first(), output)
    }
}

/// Whether `pattern` compiles and matches `text`.
pub fn pattern_matches_exec(pattern: &str, text: &str) -> (r: bool)
    ensures
        r == pattern_matches(pattern@, text@),
{
    match compile(pattern) {
        Some(p) => is_match(&p, text),
        None => false,
    }
}

/// The message of the first rule that applies to `output`.
pub fn check_match_output(output: &str, rules: &[MatchOutputRule]) -> (r: Option<String>)
    ensures
        r matches Some(m) ==> first_firing(rules@, output@) == Some(m@),
        r is None ==> first_firing(rules@, output@) is None,
{
    let mut i: usize = 0;
    assert(rules@.skip(0) =~= rules@);
    while i < rules.len()
        invariant
            i <= rules.len(),
            first_firing(rules@, output@) == first_firing(rules@.skip(i as int), output@),
        decreases rules.len() - i,
    {
        let rule = &rules[i];
        proof {
            assert(rules@.skip(i as int)[0] == rules@[i as int]);
            assert(rules@.skip(i as int).drop_first() =~= rules@.skip(i + 1));
        }
        if pattern_matches_exec(rule.success_pattern, output) && !pattern_matches_exec(
            rule.error_pattern,
            output,
        ) {
            return Some(string_of(rule.ok_message));
        }
        i += 1;
    }
    None
}

} // verus!
