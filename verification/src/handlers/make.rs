use vstd::prelude::*;

use crate::handlers::util::{check_match_output, first_firing, rule_fires, MatchOutputRule, pattern_matches};
use crate::pattern::{compile, is_match, regex_compiles, regex_is_match};
use crate::text::{
    any_line, append_str, contains, contains_str, copy_chars, from_chars, join, join_chars,
    join_newline, keep_lines, lemma_views_push, lines, lines_of, slice_chars, starts_with,
    starts_with_str, string_of, to_chars, trim, trim_chars, views, ends_with,
    lemma_join_ends_with, lemma_filter_join_contains,
};

verus! {

/// Output filter for `make`.
pub struct MakeHandler;

/// Matches the lines of compilers that name a file, a line and a column.
pub open spec fn location_pattern() -> Seq<char> {
    "^\\S+:\\d+:\\d*:?\\s+(error|warning)"@
}

/// The short-circuit rules of `make`.
pub open spec fn make_rules() -> Seq<MatchOutputRule> {
    seq![
        MatchOutputRule {
            success_pattern: "(?i)nothing to be done|build ok|all targets up to date",
            error_pattern: "(?i)\\*\\*\\* \\[|: error:|make.*Error",
            ok_message: "make: ok (nothing to do)",
        },
    ]
}

/// A line that reports a failed build.
pub open spec fn is_make_error_line(l: Seq<char>) -> bool {
    contains(l, "Error "@) || contains(l, ": error:"@) || contains(l, "*** ["@)
}

/// A line kept from `make` output.
pub open spec fn is_kept_make_line(l: Seq<char>) -> bool {
    let t = trim(l);
    &&& t.len() > 0
    &&& !starts_with(t, "make["@)
    &&& {
        ||| contains(t, ": error:"@)
        ||| contains(t, ": warning:"@)
        ||| contains(t, ": note:"@)
        ||| pattern_matches(location_pattern(), t)
        ||| (starts_with(t, "make:"@) && contains(t, "Error"@))
        ||| !starts_with(t, "make"@)
    }
}

/// What `MakeHandler::filter` returns.
pub open spec fn make_result(output: Seq<char>) -> Seq<char> {
    match first_firing(make_rules(), output) {
        Some(m) => m,
        None => {
            let ls = lines(output);
            let has_error = exists|i: int| 0 <= i < ls.len() && #[trigger] is_make_error_line(ls[i]);
            let out = ls.filter(|l: Seq<char>| is_kept_make_line(l));
            if !has_error {
                if forall|i: int| 0 <= i < out.len() ==> trim(#[trigger] out[i]).len() == 0 {
                    "[make: complete]"@
                } else {
                    let tail = if out.len() > 5 {
                        out.skip(out.len() - 5)
                    } else {
                        out
                    };
                    join(tail, seq!['\n']) + "\n[make: complete]"@
                }
            } else if out.len() == 0 {
                output
            } else {
                join(out, seq!['\n'])
            }
        },
    }
}

/// Where the output says "nothing to be done", "build ok" or "all targets up to date"
/// (in any case) and shows no `*** [`, `: error:` or `make...Error`, the filter answers
/// "make: ok (nothing to do)".
pub proof fn law_make_nothing_to_do(output: Seq<char>)
    requires
        pattern_matches("(?i)nothing to be done|build ok|all targets up to date"@, output),
        !pattern_matches("(?i)\\*\\*\\* \\[|: error:|make.*Error"@, output),
    ensures
        make_result(output) == "make: ok (nothing to do)"@,
{
    let rules = make_rules();
    assert(rules.len() == 1);
}

/// Where the short-circuit does not apply and no line holds "Error ", ": error:" or
/// "*** [", the filter's answer ends with "[make: complete]".
pub proof fn law_make_success_marker(output: Seq<char>)
    requires
        !(pattern_matches("(?i)nothing to be done|build ok|all targets up to date"@, output)
            && !pattern_matches("(?i)\\*\\*\\* \\[|: error:|make.*Error"@, output)),
        forall|i: int|
            0 <= i < lines(output).len() ==> !(contains(#[trigger] lines(output)[i], "Error "@)
                || contains(lines(output)[i], ": error:"@) || contains(lines(output)[i], "*** ["@)),
    ensures
        ends_with(make_result(output), "[make: complete]"@),
{
    let rules = make_rules();
    assert(rules.len() == 1);
    assert(rules.drop_first().len() == 0);
    assert(first_firing(rules.drop_first(), output) is None);
    assert(!rule_fires(rules[0], output));
    assert(first_firing(rules, output) is None);
    let ls = lines(output);
    assert(!(exists|i: int| 0 <= i < ls.len() && #[trigger] is_make_error_line(ls[i])));
    let out = ls.filter(|l: Seq<char>| is_kept_make_line(l));
    if !(forall|i: int| 0 <= i < out.len() ==> trim(#[trigger] out[i]).len() == 0) {
        let tail = if out.len() > 5 {
            out.skip(out.len() - 5)
        } else {
            out
        };
        let j = join(tail, seq!['\n']);
        let m = "\n[make: complete]"@;
        reveal_strlit("\n[make: complete]");
        reveal_strlit("[make: complete]");
        assert((j + m).skip((j + m).len() - "[make: complete]"@.len()) =~= "[make: complete]"@);
    } else {
        reveal_strlit("[make: complete]");
        assert("[make: complete]"@.skip(0) =~= "[make: complete]"@);
    }
}

/// Where the short-circuit does not apply and some line holds "Error ", ": error:" or
/// "*** [", every line whose trimmed text holds ": error:" and does not start with
/// "make[" appears in the filter's answer.
pub proof fn law_make_errors_shown(output: Seq<char>, j: int, k: int)
    requires
        !(pattern_matches("(?i)nothing to be done|build ok|all targets up to date"@, output)
            && !pattern_matches("(?i)\\*\\*\\* \\[|: error:|make.*Error"@, output)),
        0 <= j < lines(output).len(),
        contains(lines(output)[j], "Error "@) || contains(lines(output)[j], ": error:"@)
            || contains(lines(output)[j], "*** ["@),
        0 <= k < lines(output).len(),
        contains(trim(lines(output)[k]), ": error:"@),
        !starts_with(trim(lines(output)[k]), "make["@),
    ensures
        contains(make_result(output), lines(output)[k]),
{
    let rules = make_rules();
    assert(rules.len() == 1);
    assert(rules.drop_first().len() == 0);
    assert(first_firing(rules.drop_first(), output) is None);
    assert(!rule_fires(rules[0], output));
    assert(first_firing(rules, output) is None);
    let ls = lines(output);
    assert(is_make_error_line(ls[j]));
    let t = trim(ls[k]);
    if t.len() == 0 {
        reveal_strlit(": error:");
        assert(false);
    }
    assert(is_kept_make_line(ls[k]));
    lemma_filter_join_contains(ls, |l: Seq<char>| is_kept_make_line(l), seq!['\n'], k);
}

fn is_make_error_line_exec(l: &Vec<char>) -> (r: bool)
    ensures
        r == is_make_error_line(l@),
{
    contains_str(l, "Error ") || contains_str(l, ": error:") || contains_str(l, "*** [")
}

impl MakeHandler {
    /// Reduces `make` output: a short message where nothing was to be done; on success
    /// the last lines and a completion marker; on failure the error lines.
    pub fn filter(&self, output: &str, _args: &[String]) -> (r: String)
        ensures
            r@ == make_result(output@),
    {
        let rules = [
            MatchOutputRule {
                success_pattern: "(?i)nothing to be done|build ok|all targets up to date",
                error_pattern: "(?i)\\*\\*\\* \\[|: error:|make.*Error",
                ok_message: "make: ok (nothing to do)",
            },
        ];
        assert(rules@ == make_rules());
        if let Some(msg) = check_match_output(output, &rules) {
            return msg;
        }
        let ls = lines_of(output);
        let has_error = any_line(
            &ls,
            is_make_error_line_exec,
            Ghost(|l: Seq<char>| is_make_error_line(l)),
        );
        proof {
            let pred = |l: Seq<char>| is_make_error_line(l);
            if has_error {
                let i = choose|i: int| 0 <= i < ls.len() && #[trigger] pred(views(ls@)[i]);
                assert(is_make_error_line(views(ls@)[i]));
            } else {
                assert forall|i: int| 0 <= i < views(ls@).len() implies !#[trigger] is_make_error_line(
                    views(ls@)[i],
                ) by {
                    assert(!pred(views(ls@)[i]));
                }
            }
        }
        let loc = compile("^\\S+:\\d+:\\d*:?\\s+(error|warning)");
        let mut out: Vec<Vec<char>> = Vec::new();
        let mut i: usize = 0;
        while i < ls.len()
            invariant
                i <= ls.len(),
                loc is Some <==> regex_compiles(location_pattern()),
                loc matches Some(p) ==> p.source() == location_pattern(),
                views(out@) == views(ls@).take(i as int).filter(|l: Seq<char>| is_kept_make_line(l)),
            decreases ls.len() - i,
        {
            let line = &ls[i];
            let t = trim_chars(line);
            let ghost old_out = out@;
            let mut keep = false;
            if t.len() > 0 && !starts_with_str(&t, "make[") {
                if contains_str(&t, ": error:") || contains_str(&t, ": warning:") || contains_str(
                    &t,
                    ": note:",
                ) {
                    keep = true;
                } else {
                    let ts = from_chars(&t);
                    let located = match &loc {
                        Some(p) => is_match(p, ts.as_str()),
                        None => false,
                    };
                    if located {
                        keep = true;
                    } else if starts_with_str(&t, "make:") && contains_str(&t, "Error") {
                        keep = true;
                    } else if !starts_with_str(&t, "make") {
                        keep = true;
                    }
                }
            }
            assert(keep == is_kept_make_line(line@));
            if keep {
                out.push(copy_chars(line));
            }
            proof {
                reveal(Seq::filter);
                assert(views(ls@).take(i + 1).drop_last() =~= views(ls@).take(i as int));
                assert(views(ls@).take(i + 1).last() == line@);
                if keep {
                    lemma_views_push(old_out, out@.last());
                }
            }
            i += 1;
        }
        assert(views(ls@).take(ls.len() as int) =~= views(ls@));
        let ghost outs = views(out@);
        if !has_error {
            let mut all_blank = true;
            let mut k: usize = 0;
            while k < out.len()
                invariant
                    k <= out.len(),
                    outs == views(out@),
                    all_blank == forall|j: int| 0 <= j < k ==> trim(#[trigger] outs[j]).len() == 0,
                decreases out.len() - k,
            {
                assert(outs[k as int] == out@[k as int]@);
                if trim_chars(&out[k]).len() > 0 {
                    all_blank = false;
                }
                k += 1;
            }
            if all_blank {
                return string_of("[make: complete]");
            }
            let start = if out.len() > 5 {
                out.len() - 5
            } else {
                0
            };
            let mut tail: Vec<Vec<char>> = Vec::new();
            let mut j = start;
            while j < out.len()
                invariant
                    start <= j <= out.len(),
                    outs == views(out@),
                    views(tail@) == outs.subrange(start as int, j as int),
                decreases out.len() - j,
            {
                let ghost old_tail = tail@;
                let c = copy_chars(&out[j]);
                tail.push(c);
                proof {
                    lemma_views_push(old_tail, c);
                    assert(views(tail@) =~= outs.subrange(start as int, j + 1));
                }
                j += 1;
            }
            proof {
                if out.len() > 5 {
                    assert(views(tail@) =~= outs.skip(outs.len() - 5));
                } else {
                    assert(views(tail@) =~= outs);
                }
            }
            let sep = vec!['\n'];
            assert(sep@ =~= seq!['\n']);
            let mut res = join_chars(&tail, &sep);
            append_str(&mut res, "\n[make: complete]");
            return from_chars(&res);
        }
        if out.len() == 0 {
            string_of(output)
        } else {
            join_newline(&out)
        }
    }
}

} // verus!
