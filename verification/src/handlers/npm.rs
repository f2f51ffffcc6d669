use vstd::prelude::*;

use crate::text::{
    any_line, append_chars, append_str, arg_chars, arg_or_empty, arg_views, args_chars, contains,
    contains_str, copy_args, copy_chars, decimal, decimal_chars, dedup, dedup_exec, eq_str,
    from_chars, index_of_char, join, join_newline, keep_lines, lemma_arg_views_push,
    lemma_index_of_char, lemma_views_push, lines, lines_of, parse_u32, parse_u32_exec,
    slice_chars, starts_with, starts_with_char, starts_with_char_exec, starts_with_str, string_of,
    to_chars, trim, trim_chars, views, words, words_exec, ends_with, lemma_join_contains,
    lemma_join_ends_with, lemma_dedup_contains,
};
use crate::unicode::{alphanumeric, char_is_alphanumeric, lower_chars, lowercase};

verus! {

/// Output filter for `npm`.
pub struct NpmHandler;

/// `install` and its aliases.
pub open spec fn is_install_cmd(sub: Seq<char>) -> bool {
    sub == "install"@ || sub == "i"@ || sub == "add"@ || sub == "ci"@
}

/// A character of a spinner or progress bar.
pub open spec fn is_spinner_char(c: char) -> bool {
    c == ' ' || c == '.' || c == '/' || c == '-' || c == '\\' || c == '|'
}

/// A character allowed in a script name.
pub open spec fn is_script_char(c: char) -> bool {
    alphanumeric(c) || c == '_' || c == '-'
}

/// The package part of a lifecycle header body: up to the first space.
pub open spec fn lifecycle_package(rest: Seq<char>) -> Seq<char> {
    rest.take(index_of_char(rest, ' ') as int)
}

/// The script part of a lifecycle header body: after the first space, trimmed.
pub open spec fn lifecycle_script(rest: Seq<char>) -> Seq<char> {
    let k = index_of_char(rest, ' ');
    if k < rest.len() {
        trim(rest.skip(k + 1 as int))
    } else {
        seq![]
    }
}

/// Every character may stand in a script name.
pub open spec fn all_script_chars(s: Seq<char>) -> bool {
    forall|i: int| 0 <= i < s.len() ==> is_script_char(#[trigger] s[i])
}

/// A lifecycle script header such as `> package@1.0.0 build`: after `> `, a non-empty
/// package part, a space, and one word of script-name characters.
pub open spec fn is_lifecycle(t: Seq<char>) -> bool {
    &&& starts_with(t, "> "@)
    &&& lifecycle_script(t.skip(2)).len() > 0
    &&& lifecycle_package(t.skip(2)).len() > 0
    &&& !contains(lifecycle_script(t.skip(2)), " "@)
    &&& all_script_chars(lifecycle_script(t.skip(2)))
}

/// An npm boilerplate line: a warning or notice, a spinner, or a lifecycle header.
pub open spec fn is_boilerplate(line: Seq<char>) -> bool {
    let t = trim(line);
    ||| starts_with(t, "npm WARN"@)
    ||| starts_with(t, "npm notice"@)
    ||| (t.len() > 0 && forall|i: int| 0 <= i < t.len() ==> is_spinner_char(#[trigger] t[i]))
    ||| is_lifecycle(t)
}

/// Whether `t` is a lifecycle script header.
pub fn is_lifecycle_header(t: &str) -> (r: bool)
    ensures
        r == is_lifecycle(t@),
{
    let c = to_chars(t);
    is_lifecycle_chars(&c)
}

fn is_lifecycle_chars(t: &Vec<char>) -> (r: bool)
    ensures
        r == is_lifecycle(t@),
{
    if !starts_with_str(t, "> ") {
        return false;
    }
    proof {
        reveal_strlit("> ");
    }
    let rest = slice_chars(t, 2, t.len());
    assert(rest@ =~= t@.skip(2));
    let mut k: usize = 0;
    while k < rest.len() && rest[k] != ' '
        invariant
            k <= rest.len(),
            forall|j: int| 0 <= j < k ==> #[trigger] rest@[j] != ' ',
        decreases rest.len() - k,
    {
        k += 1;
    }
    proof {
        lemma_index_of_char(rest@, ' ', k as int);
    }
    assert(lifecycle_package(rest@) =~= rest@.take(k as int));
    let script = if k < rest.len() {
        let after = slice_chars(&rest, k + 1, rest.len());
        assert(after@ =~= rest@.skip(k + 1));
        trim_chars(&after)
    } else {
        Vec::new()
    };
    assert(script@ == lifecycle_script(t@.skip(2)));
    if script.len() == 0 || k == 0 {
        return false;
    }
    if contains_str(&script, " ") {
        return false;
    }
    let mut i: usize = 0;
    while i < script.len()
        invariant
            i <= script.len(),
            script@ == lifecycle_script(t@.skip(2)),
            forall|j: int| 0 <= j < i ==> is_script_char(#[trigger] script@[j]),
        decreases script.len() - i,
    {
        let c = script[i];
        if !(char_is_alphanumeric(c) || c == '_' || c == '-') {
            assert(!is_script_char(script@[i as int]));
            assert(!all_script_chars(script@));
            return false;
        }
        i += 1;
    }
    true
}

/// Whether the line is npm boilerplate.
pub fn is_boilerplate_line(line: &str) -> (r: bool)
    ensures
        r == is_boilerplate(line@),
{
    let c = to_chars(line);
    is_boilerplate_chars(&c)
}

fn is_boilerplate_chars(line: &Vec<char>) -> (r: bool)
    ensures
        r == is_boilerplate(line@),
{
    let t = trim_chars(line);
    if starts_with_str(&t, "npm WARN") || starts_with_str(&t, "npm notice") {
        return true;
    }
    if t.len() > 0 {
        let mut all = true;
        let mut i: usize = 0;
        while i < t.len()
            invariant
                i <= t.len(),
                all == forall|j: int| 0 <= j < i ==> is_spinner_char(#[trigger] t@[j]),
            decreases t.len() - i,
        {
            let c = t[i];
            if !(c == ' ' || c == '.' || c == '/' || c == '-' || c == '\\' || c == '|') {
                all = false;
            }
            i += 1;
        }
        if all {
            return true;
        }
    }
    is_lifecycle_chars(&t)
}

/// The count after the first `added` or `installed` word that is followed by a number.
pub open spec fn package_count_from(ws: Seq<Seq<char>>, i: int) -> Option<nat>
    decreases ws.len() - i,
{
    if i < 0 || i >= ws.len() {
        None
    } else if (ws[i] == "added"@ || ws[i] == "installed"@) && i + 1 < ws.len() && parse_u32(
        ws[i + 1],
    ) is Some {
        parse_u32(ws[i + 1])
    } else {
        package_count_from(ws, i + 1)
    }
}

/// The package count of a line such as `added 42 packages`.
pub open spec fn package_count(line: Seq<char>) -> Option<nat> {
    package_count_from(words(line), 0)
}

proof fn lemma_package_count_from(ws: Seq<Seq<char>>, i: int, j: int)
    requires
        0 <= i <= j,
        j + 1 < ws.len(),
        ws[j] == "added"@ || ws[j] == "installed"@,
        parse_u32(ws[j + 1]) is Some,
        forall|m: int|
            i <= m < j ==> !((#[trigger] ws[m] == "added"@ || ws[m] == "installed"@) && m + 1
                < ws.len() && parse_u32(ws[m + 1]) is Some),
    ensures
        package_count_from(ws, i) == parse_u32(ws[j + 1]),
    decreases j - i,
{
    if i < j {
        lemma_package_count_from(ws, i + 1, j);
    }
}

/// A line's package count is the number after its first word "added" or "installed"
/// that is followed by a number.
pub proof fn law_package_count(line: Seq<char>, j: int)
    requires
        0 <= j,
        j + 1 < words(line).len(),
        words(line)[j] == "added"@ || words(line)[j] == "installed"@,
        parse_u32(words(line)[j + 1]) is Some,
        forall|m: int|
            0 <= m < j ==> !((#[trigger] words(line)[m] == "added"@ || words(line)[m]
                == "installed"@) && parse_u32(words(line)[m + 1]) is Some),
    ensures
        package_count(line) == parse_u32(words(line)[j + 1]),
{
    lemma_package_count_from(words(line), 0, j);
}

/// The package count that the line reports, if any.
pub fn extract_package_count(line: &str) -> (r: Option<u32>)
    ensures
        r matches Some(n) ==> package_count(line@) == Some(n as nat),
        r is None ==> package_count(line@) is None,
{
    let c = to_chars(line);
    extract_package_count_chars(&c)
}

fn extract_package_count_chars(line: &Vec<char>) -> (r: Option<u32>)
    ensures
        r matches Some(n) ==> package_count(line@) == Some(n as nat),
        r is None ==> package_count(line@) is None,
{
    let ws = words_exec(line);
    let ghost wv = views(ws@);
    let mut i: usize = 0;
    while i < ws.len()
        invariant
            i <= ws.len(),
            wv == views(ws@),
            wv == words(line@),
            package_count(line@) == package_count_from(wv, i as int),
        decreases ws.len() - i,
    {
        assert(wv[i as int] == ws@[i as int]@);
        if (eq_str(&ws[i], "added") || eq_str(&ws[i], "installed")) && i + 1 < ws.len() {
            assert(wv[i + 1] == ws@[i + 1]@);
            if let Some(n) = parse_u32_exec(&ws[i + 1]) {
                return Some(n);
            }
        }
        i += 1;
    }
    None
}

/// The last package count of the non-boilerplate lines.
pub open spec fn install_count(ls: Seq<Seq<char>>) -> Option<nat>
    decreases ls.len(),
{
    if ls.len() == 0 {
        None
    } else if !is_boilerplate(ls.last()) && package_count(trim(ls.last())) is Some {
        package_count(trim(ls.last()))
    } else {
        install_count(ls.drop_last())
    }
}

/// A line about vulnerabilities or an audit.
pub open spec fn is_audit(t: Seq<char>) -> bool {
    contains(t, "vulnerabilit"@) || contains(t, "audit"@)
}

/// The last audit line, trimmed, of the non-boilerplate lines.
pub open spec fn install_audit(ls: Seq<Seq<char>>) -> Option<Seq<char>>
    decreases ls.len(),
{
    if ls.len() == 0 {
        None
    } else if !is_boilerplate(ls.last()) && is_audit(trim(ls.last())) {
        Some(trim(ls.last()))
    } else {
        install_audit(ls.drop_last())
    }
}

/// What `filter_install` returns: a completion line with the package count, and the
/// audit line.
pub open spec fn install_result(output: Seq<char>) -> Seq<char> {
    let ls = lines(output);
    let count = match install_count(ls) {
        Some(n) => decimal(n) + " packages"@,
        None => "packages"@,
    };
    "[install complete — "@ + count + "]"@ + match install_audit(ls) {
        Some(a) => seq!['\n'] + a,
        None => seq![],
    }
}

proof fn lemma_install_audit_last(ls: Seq<Seq<char>>, j: int)
    requires
        0 <= j < ls.len(),
        !is_boilerplate(ls[j]),
        is_audit(trim(ls[j])),
        forall|m: int|
            j < m < ls.len() ==> !(!is_boilerplate(#[trigger] ls[m]) && is_audit(trim(ls[m]))),
    ensures
        install_audit(ls) == Some(trim(ls[j])),
    decreases ls.len(),
{
    if j < ls.len() - 1 {
        assert(!(!is_boilerplate(ls[ls.len() - 1]) && is_audit(trim(ls[ls.len() - 1]))));
        assert forall|m: int| j < m < ls.drop_last().len() implies !(!is_boilerplate(
            #[trigger] ls.drop_last()[m],
        ) && is_audit(trim(ls.drop_last()[m]))) by {
            assert(ls.drop_last()[m] == ls[m]);
        }
        assert(ls.drop_last()[j] == ls[j]);
        lemma_install_audit_last(ls.drop_last(), j);
    }
}

/// The install filter's answer opens with "[install complete — ", and ends with the last
/// non-boilerplate line (trimmed) that speaks of vulnerabilities or an audit, where there
/// is one.
pub proof fn law_install_summary(output: Seq<char>, j: int)
    ensures
        starts_with(install_result(output), "[install complete — "@),
        (0 <= j < lines(output).len() && !is_boilerplate(lines(output)[j]) && (contains(
            trim(lines(output)[j]),
            "vulnerabilit"@,
        ) || contains(trim(lines(output)[j]), "audit"@)) && forall|m: int|
            j < m < lines(output).len() ==> !(!is_boilerplate(#[trigger] lines(output)[m]) && (
            contains(trim(lines(output)[m]), "vulnerabilit"@) || contains(
                trim(lines(output)[m]),
                "audit"@,
            )))) ==> ends_with(install_result(output), trim(lines(output)[j])),
{
    let ls = lines(output);
    let count = match install_count(ls) {
        Some(n) => decimal(n) + " packages"@,
        None => "packages"@,
    };
    let head = "[install complete — "@ + count + "]"@;
    let tail = match install_audit(ls) {
        Some(a) => seq!['\n'] + a,
        None => seq![],
    };
    assert(install_result(output) == head + tail);
    let p = "[install complete — "@;
    assert((head + tail).take(p.len() as int) =~= p);
    if 0 <= j < ls.len() && !is_boilerplate(ls[j]) && is_audit(trim(ls[j])) && forall|m: int|
        j < m < ls.len() ==> !(!is_boilerplate(#[trigger] ls[m]) && is_audit(trim(ls[m]))) {
        lemma_install_audit_last(ls, j);
        let a = trim(ls[j]);
        assert((head + tail).skip((head + tail).len() - a.len()) =~= a);
    }
}

/// Reduces `npm install` output to the package count and the audit line.
pub fn filter_install(output: &str) -> (r: String)
    ensures
        r@ == install_result(output@),
{
    let ls = lines_of(output);
    let mut count: Option<u32> = None;
    let mut audit: Option<Vec<char>> = None;
    let mut i: usize = 0;
    while i < ls.len()
        invariant
            i <= ls.len(),
            match count {
                Some(n) => install_count(views(ls@).take(i as int)) == Some(n as nat),
                None => install_count(views(ls@).take(i as int)) is None,
            },
            match audit {
                Some(a) => install_audit(views(ls@).take(i as int)) == Some(a@),
                None => install_audit(views(ls@).take(i as int)) is None,
            },
        decreases ls.len() - i,
    {
        let line = &ls[i];
        proof {
            let t = views(ls@).take(i + 1);
            assert(t.drop_last() =~= views(ls@).take(i as int));
            assert(t.last() == line@);
        }
        if !is_boilerplate_chars(line) {
            let t = trim_chars(line);
            if let Some(n) = extract_package_count_chars(&t) {
                count = Some(n);
            }
            if contains_str(&t, "vulnerabilit") || contains_str(&t, "audit") {
                audit = Some(t);
            }
        }
        i += 1;
    }
    assert(views(ls@).take(ls.len() as int) =~= views(ls@));
    let mut r: Vec<char> = Vec::new();
    append_str(&mut r, "[install complete — ");
    match count {
        Some(n) => {
            let d = decimal_chars(n as usize);
            append_chars(&mut r, &d);
            append_str(&mut r, " packages");
        },
        None => {
            append_str(&mut r, "packages");
        },
    }
    append_str(&mut r, "]");
    match audit {
        Some(a) => {
            r.push('\n');
            let ghost before = r@;
            append_chars(&mut r, &a);
            assert(r@ =~= before.drop_last() + (seq!['\n'] + a@));
        },
        None => {
            assert(r@ =~= r@ + Seq::<char>::empty());
        },
    }
    from_chars(&r)
}


/// A test failure line of Jest, Vitest or similar.
pub open spec fn is_failure_marker(t: Seq<char>) -> bool {
    starts_with(t, "✕"@) || starts_with(t, "✗"@) || starts_with(t, "× "@) || contains(t, "FAIL "@)
}

/// A summary line of a test run.
pub open spec fn is_test_summary(t: Seq<char>) -> bool {
    contains(t, "failing"@) || contains(t, "passed"@) || contains(t, "failed"@)
}

/// One line of test output: whether a failure block is open after it, and the failure
/// and summary lines it adds.
pub open spec fn test_step(in_failure: bool, line: Seq<char>) -> (bool, Seq<Seq<char>>, Seq<
    Seq<char>,
>) {
    let t = trim(line);
    let marked = if is_failure_marker(t) {
        seq![t]
    } else {
        seq![]
    };
    let summary = if is_test_summary(t) {
        seq![t]
    } else {
        seq![]
    };
    let open = in_failure || starts_with_char(t, '●');
    let block = if open {
        seq![t]
    } else {
        seq![]
    };
    (open && t.len() > 0, marked + block, summary)
}

/// `test_step` over all of `ls`.
pub open spec fn test_run(ls: Seq<Seq<char>>) -> (bool, Seq<Seq<char>>, Seq<Seq<char>>)
    decreases ls.len(),
{
    if ls.len() == 0 {
        (false, seq![], seq![])
    } else {
        let prev = test_run(ls.drop_last());
        let next = test_step(prev.0, ls.last());
        (next.0, prev.1 + next.1, prev.2 + next.2)
    }
}

/// What `filter_test` returns: the failures with the last summary line, or the summary
/// lines alone where nothing failed; the output itself where there is neither.
pub open spec fn test_result(output: Seq<char>) -> Seq<char> {
    let run = test_run(lines(output));
    let failures = run.1;
    let summary = run.2;
    if failures.len() == 0 && summary.len() > 0 {
        join(summary, seq!['\n'])
    } else {
        let out = failures + if summary.len() > 0 {
            seq![summary.last()]
        } else {
            seq![]
        };
        if out.len() == 0 {
            output
        } else {
            join(out, seq!['\n'])
        }
    }
}

proof fn lemma_test_run_marks(ls: Seq<Seq<char>>, k: int)
    requires
        0 <= k < ls.len(),
        is_failure_marker(trim(ls[k])),
    ensures
        test_run(ls).1.contains(trim(ls[k])),
    decreases ls.len(),
{
    let prev = test_run(ls.drop_last());
    let next = test_step(prev.0, ls.last());
    assert(test_run(ls).1 == prev.1 + next.1);
    if k == ls.len() - 1 {
        assert(next.1[0] == trim(ls[k]));
        assert((prev.1 + next.1)[prev.1.len() as int] == trim(ls[k]));
    } else {
        assert(ls.drop_last()[k] == ls[k]);
        lemma_test_run_marks(ls.drop_last(), k);
        let m = choose|m: int| 0 <= m < prev.1.len() && prev.1[m] == trim(ls[k]);
        assert((prev.1 + next.1)[m] == trim(ls[k]));
    }
}

proof fn lemma_test_run_last_summary(ls: Seq<Seq<char>>, j: int)
    requires
        0 <= j < ls.len(),
        is_test_summary(trim(ls[j])),
        forall|m: int| j < m < ls.len() ==> !is_test_summary(#[trigger] trim(ls[m])),
    ensures
        test_run(ls).2.len() > 0,
        test_run(ls).2.last() == trim(ls[j]),
    decreases ls.len(),
{
    let prev = test_run(ls.drop_last());
    let next = test_step(prev.0, ls.last());
    assert(test_run(ls).2 == prev.2 + next.2);
    if j < ls.len() - 1 {
        assert(!is_test_summary(trim(ls[ls.len() - 1])));
        assert(next.2.len() == 0);
        assert forall|m: int| j < m < ls.drop_last().len() implies !is_test_summary(
            #[trigger] trim(ls.drop_last()[m]),
        ) by {
            assert(ls.drop_last()[m] == ls[m]);
        }
        assert(ls.drop_last()[j] == ls[j]);
        lemma_test_run_last_summary(ls.drop_last(), j);
        assert(prev.2 + next.2 =~= prev.2);
    }
}

/// Every line of `npm test` output whose trimmed text starts with ✕, ✗ or "× ", or
/// contains "FAIL ", appears, trimmed, in what the filter returns.
pub proof fn law_test_failures_shown(output: Seq<char>, k: int)
    requires
        0 <= k < lines(output).len(),
        ({
            let t = trim(lines(output)[k]);
            ||| starts_with(t, "✕"@)
            ||| starts_with(t, "✗"@)
            ||| starts_with(t, "× "@)
            ||| contains(t, "FAIL "@)
        }),
    ensures
        contains(test_result(output), trim(lines(output)[k])),
{
    let ls = lines(output);
    lemma_test_run_marks(ls, k);
    let run = test_run(ls);
    let failures = run.1;
    let summary = run.2;
    let m = choose|m: int| 0 <= m < failures.len() && failures[m] == trim(ls[k]);
    let out = failures + if summary.len() > 0 {
        seq![summary.last()]
    } else {
        seq![]
    };
    assert(out[m] == trim(ls[k]));
    assert(test_result(output) == join(out, seq!['\n']));
    lemma_join_contains(out, seq!['\n'], m);
}

/// Where `npm test` output has a summary line (trimmed text containing "failing",
/// "passed" or "failed"), what the filter returns ends with the last one, trimmed.
pub proof fn law_test_ends_with_last_summary(output: Seq<char>, j: int)
    requires
        0 <= j < lines(output).len(),
        ({
            let t = trim(lines(output)[j]);
            contains(t, "failing"@) || contains(t, "passed"@) || contains(t, "failed"@)
        }),
        forall|m: int|
            j < m < lines(output).len() ==> {
                let t = #[trigger] trim(lines(output)[m]);
                !(contains(t, "failing"@) || contains(t, "passed"@) || contains(t, "failed"@))
            },
    ensures
        ends_with(test_result(output), trim(lines(output)[j])),
{
    let ls = lines(output);
    lemma_test_run_last_summary(ls, j);
    let run = test_run(ls);
    let failures = run.1;
    let summary = run.2;
    if failures.len() == 0 {
        lemma_join_ends_with(summary, seq!['\n']);
    } else {
        let out = failures + seq![summary.last()];
        assert(test_result(output) == join(out, seq!['\n']));
        assert(out.last() == summary.last());
        lemma_join_ends_with(out, seq!['\n']);
    }
}

/// Keeps the failures and the summary of `npm test` output.
pub fn filter_test(output: &str) -> (r: String)
    ensures
        r@ == test_result(output@),
{
    let ls = lines_of(output);
    let mut failures: Vec<Vec<char>> = Vec::new();
    let mut summary: Vec<Vec<char>> = Vec::new();
    let mut in_failure = false;
    let mut i: usize = 0;
    while i < ls.len()
        invariant
            i <= ls.len(),
            test_run(views(ls@).take(i as int)) == (in_failure, views(failures@), views(summary@)),
        decreases ls.len() - i,
    {
        let line = &ls[i];
        proof {
            let tk = views(ls@).take(i + 1);
            assert(tk.drop_last() =~= views(ls@).take(i as int));
            assert(tk.last() == line@);
        }
        let t = trim_chars(line);
        let ghost f0 = views(failures@);
        let ghost s0 = views(summary@);
        let marked = starts_with_str(&t, "✕") || starts_with_str(&t, "✗") || starts_with_str(
            &t,
            "× ",
        ) || contains_str(&t, "FAIL ");
        if marked {
            let c = copy_chars(&t);
            let ghost old = failures@;
            failures.push(c);
            proof {
                lemma_views_push(old, c);
            }
        }
        let ghost f1 = views(failures@);
        if contains_str(&t, "failing") || contains_str(&t, "passed") || contains_str(&t, "failed") {
            let c = copy_chars(&t);
            let ghost old = summary@;
            summary.push(c);
            proof {
                lemma_views_push(old, c);
                assert(views(summary@) =~= s0 + seq![t@]);
            }
        } else {
            assert(views(summary@) =~= s0 + Seq::<Seq<char>>::empty());
        }
        if starts_with_char_exec(&t, '●') {
            in_failure = true;
        }
        if in_failure {
            let c = copy_chars(&t);
            let ghost old = failures@;
            failures.push(c);
            proof {
                lemma_views_push(old, c);
            }
            if t.len() == 0 {
                in_failure = false;
            }
        }
        proof {
            let m = if marked {
                seq![t@]
            } else {
                seq![]
            };
            let b = if in_failure || (t@.len() == 0 && views(failures@).len() > f1.len()) {
                seq![t@]
            } else {
                seq![]
            };
            assert(f1 =~= f0 + m);
            if views(failures@).len() > f1.len() {
                assert(views(failures@) =~= f0 + m + seq![t@]);
            } else {
                assert(views(failures@) =~= f0 + m + Seq::<Seq<char>>::empty());
            }
        }
        i += 1;
    }
    assert(views(ls@).take(ls.len() as int) =~= views(ls@));
    assert(views(failures@).len() == failures.len());
    assert(views(summary@).len() == summary.len());
    if failures.len() == 0 && summary.len() > 0 {
        return join_newline(&summary);
    }
    let mut out = failures;
    if summary.len() > 0 {
        let ghost old = out@;
        let c = copy_chars(&summary[summary.len() - 1]);
        assert(c@ == views(summary@).last());
        out.push(c);
        proof {
            lemma_views_push(old, c);
        }
    } else {
        assert(views(out@) =~= views(out@) + Seq::<Seq<char>>::empty());
    }
    proof {
        let run = test_run(lines(output@));
        let tail = if run.2.len() > 0 {
            seq![run.2.last()]
        } else {
            seq![]
        };
        assert(views(out@) =~= run.1 + tail);
    }
    if out.len() == 0 {
        string_of(output)
    } else {
        join_newline(&out)
    }
}

/// A line kept by `filter_run_script` before anything else: not blank, not boilerplate.
pub open spec fn is_script_output(l: Seq<char>) -> bool {
    trim(l).len() > 0 && !is_boilerplate(l)
}

/// Lines whose trimmed text starts with "npm WARN" or "npm notice", or is made only of
/// spaces, dots, slashes, dashes, backslashes and bars, are boilerplate: never part of
/// a script's output.
pub proof fn law_boilerplate_dropped(l: Seq<char>)
    ensures
        ({
            let t = trim(l);
            ||| starts_with(t, "npm WARN"@)
            ||| starts_with(t, "npm notice"@)
            ||| (t.len() > 0 && forall|i: int|
                0 <= i < t.len() ==> {
                    let c = #[trigger] t[i];
                    c == ' ' || c == '.' || c == '/' || c == '-' || c == '\\' || c == '|'
                })
        }) ==> !is_script_output(l),
{
    let t = trim(l);
    if t.len() > 0 && forall|i: int|
        0 <= i < t.len() ==> {
            let c = #[trigger] t[i];
            c == ' ' || c == '.' || c == '/' || c == '-' || c == '\\' || c == '|'
        } {
        assert forall|i: int| 0 <= i < t.len() implies is_spinner_char(#[trigger] t[i]) by {}
    }
}

/// A line of a long script output that is kept.
pub open spec fn is_important(l: Seq<char>) -> bool {
    let lo = lowercase(l);
    ||| contains(lo, "error"@)
    ||| contains(lo, "warning"@)
    ||| contains(lo, "failed"@)
    ||| contains(lo, "success"@)
    ||| contains(lo, "done in"@)
    ||| contains(lo, "built in"@)
}

/// What `filter_run_script` returns: the non-boilerplate lines where there are at most
/// thirty; else the important ones, a line count and the last five lines, without
/// consecutive repeats.
pub open spec fn run_script_result(output: Seq<char>) -> Seq<char> {
    let cleaned = lines(output).filter(|l: Seq<char>| is_script_output(l));
    if cleaned.len() <= 30 {
        join(cleaned, seq!['\n'])
    } else {
        let important = cleaned.filter(|l: Seq<char>| is_important(l));
        let count = "["@ + decimal(cleaned.len()) + " lines of output]"@;
        join(dedup(important + seq![count] + cleaned.skip(cleaned.len() - 5)), seq!['\n'])
    }
}

/// Where more than 30 lines are left once blank and boilerplate lines are dropped, every
/// such line that, in lower case, holds "error", "warning", "failed", "success",
/// "done in" or "built in" appears in what the filter returns.
pub proof fn law_run_script_keeps_important(output: Seq<char>, k: int)
    requires
        lines(output).filter(|l: Seq<char>| is_script_output(l)).len() > 30,
        0 <= k < lines(output).len(),
        is_script_output(lines(output)[k]),
        ({
            let lo = lowercase(lines(output)[k]);
            ||| contains(lo, "error"@)
            ||| contains(lo, "warning"@)
            ||| contains(lo, "failed"@)
            ||| contains(lo, "success"@)
            ||| contains(lo, "done in"@)
            ||| contains(lo, "built in"@)
        }),
    ensures
        contains(run_script_result(output), lines(output)[k]),
{
    let ls = lines(output);
    let x = ls[k];
    let f = |l: Seq<char>| is_script_output(l);
    let g = |l: Seq<char>| is_important(l);
    ls.lemma_filter_contains(f, k);
    let cleaned = ls.filter(f);
    let c = choose|c: int| 0 <= c < cleaned.len() && cleaned[c] == x;
    cleaned.lemma_filter_contains(g, c);
    let important = cleaned.filter(g);
    let m = choose|m: int| 0 <= m < important.len() && important[m] == x;
    let count = "["@ + decimal(cleaned.len()) + " lines of output]"@;
    let all = important + seq![count] + cleaned.skip(cleaned.len() - 5);
    assert(all[m] == x);
    lemma_dedup_contains(all, x);
    let d = dedup(all);
    let n = choose|n: int| 0 <= n < d.len() && d[n] == x;
    lemma_join_contains(d, seq!['\n'], n);
}

fn is_script_output_exec(l: &Vec<char>) -> (r: bool)
    ensures
        r == is_script_output(l@),
{
    trim_chars(l).len() > 0 && !is_boilerplate_chars(l)
}

fn is_important_exec(l: &Vec<char>) -> (r: bool)
    ensures
        r == is_important(l@),
{
    let lo = lower_chars(l);
    contains_str(&lo, "error") || contains_str(&lo, "warning") || contains_str(&lo, "failed")
        || contains_str(&lo, "success") || contains_str(&lo, "done in") || contains_str(
        &lo,
        "built in",
    )
}

/// Condenses the output of `npm run <script>`.
pub fn filter_run_script(output: &str) -> (r: String)
    ensures
        r@ == run_script_result(output@),
{
    let ls = lines_of(output);
    let cleaned = keep_lines(&ls, is_script_output_exec, Ghost(|l: Seq<char>| is_script_output(l)));
    let ghost cv = views(cleaned@);
    assert(cv.len() == cleaned.len());
    if cleaned.len() <= 30 {
        return join_newline(&cleaned);
    }
    let mut important = keep_lines(
        &cleaned,
        is_important_exec,
        Ghost(|l: Seq<char>| is_important(l)),
    );
    let mut count: Vec<char> = Vec::new();
    append_str(&mut count, "[");
    let d = decimal_chars(cleaned.len());
    append_chars(&mut count, &d);
    append_str(&mut count, " lines of output]");
    let ghost imp = views(important@);
    important.push(count);
    proof {
        lemma_views_push(important@.drop_last(), count);
        assert(important@.drop_last() =~= important@.drop_last());
    }
    let ghost with_count = views(important@);
    assert(with_count =~= imp + seq![count@]) by {
        assert(important@.drop_last().len() == imp.len());
        assert forall|k: int| 0 <= k < imp.len() implies with_count[k] == imp[k] by {
            assert(with_count[k] == important@[k]@);
        }
    }
    let start = cleaned.len() - 5;
    let mut j = start;
    while j < cleaned.len()
        invariant
            start <= j <= cleaned.len(),
            start == cleaned.len() - 5,
            cv == views(cleaned@),
            views(important@) == with_count + cv.subrange(start as int, j as int),
        decreases cleaned.len() - j,
    {
        let ghost old = important@;
        let c = copy_chars(&cleaned[j]);
        important.push(c);
        proof {
            lemma_views_push(old, c);
            assert(views(important@) =~= with_count + cv.subrange(start as int, j + 1));
        }
        j += 1;
    }
    assert(cv.subrange(start as int, cleaned.len() as int) =~= cv.skip(cv.len() - 5));
    let deduped = dedup_exec(&important);
    join_newline(&deduped)
}

/// What `rewrite_args` gives for `npm`: `--no-progress` added to installs without it.
pub open spec fn npm_rewrite(args: Seq<Seq<char>>) -> Seq<Seq<char>> {
    if is_install_cmd(arg_or_empty(args, 1)) && !(exists|i: int|
        0 <= i < args.len() && #[trigger] args[i] == "--no-progress"@) {
        args.push("--no-progress"@)
    } else {
        args
    }
}

/// `npm install`, `i`, `add` and `ci` get `--no-progress` added where no argument is
/// `--no-progress`; every other command line is left as it is.
pub proof fn law_npm_rewrite_adds_no_progress(args: Seq<Seq<char>>)
    ensures
        ({
            let install = args.len() > 1 && (args[1] == "install"@ || args[1] == "i"@ || args[1]
                == "add"@ || args[1] == "ci"@);
            let present = exists|i: int| 0 <= i < args.len() && #[trigger] args[i] == "--no-progress"@;
            &&& install && !present ==> npm_rewrite(args) == args.push("--no-progress"@)
            &&& !(install && !present) ==> npm_rewrite(args) == args
        }),
{
    reveal_strlit("install");
    reveal_strlit("i");
    reveal_strlit("add");
    reveal_strlit("ci");
    if args.len() > 1 {
        assert(arg_or_empty(args, 1) == args[1]);
    } else {
        assert(arg_or_empty(args, 1).len() == 0);
        assert(!is_install_cmd(arg_or_empty(args, 1)));
    }
}

/// Rewriting an `npm` command line only ever appends to it, and rewriting the result
/// again changes nothing.
pub proof fn law_npm_rewrite_idempotent(args: Seq<Seq<char>>)
    ensures
        npm_rewrite(args).take(args.len() as int) == args,
        npm_rewrite(npm_rewrite(args)) == npm_rewrite(args),
{
    let r = npm_rewrite(args);
    if r != args {
        reveal_strlit("install");
        reveal_strlit("i");
        reveal_strlit("add");
        reveal_strlit("ci");
        assert(is_install_cmd(arg_or_empty(args, 1)));
        assert(arg_or_empty(args, 1).len() > 0);
        assert(args.len() > 1);
        assert(r[1] == args[1]);
        assert(r[args.len() as int] == "--no-progress"@);
        assert(arg_or_empty(r, 1) == arg_or_empty(args, 1));
    }
    assert(r.take(args.len() as int) =~= args);
}

/// What `NpmHandler::filter` returns for subcommand `sub`.
pub open spec fn npm_result(output: Seq<char>, sub: Seq<char>) -> Seq<char> {
    if is_install_cmd(sub) {
        install_result(output)
    } else if sub == "test"@ || sub == "t"@ {
        test_result(output)
    } else if sub == "run"@ {
        run_script_result(output)
    } else {
        output
    }
}

fn is_install_cmd_exec(sub: &Vec<char>) -> (r: bool)
    ensures
        r == is_install_cmd(sub@),
{
    eq_str(sub, "install") || eq_str(sub, "i") || eq_str(sub, "add") || eq_str(sub, "ci")
}

impl NpmHandler {
    /// Adds `--no-progress` to `npm install` and its aliases where it is missing.
    pub fn rewrite_args(&self, args: &[String]) -> (r: Vec<String>)
        ensures
            arg_views(r@) == npm_rewrite(arg_views(args@)),
    {
        let sub = arg_chars(args, 1);
        let mut out = copy_args(args);
        if is_install_cmd_exec(&sub) {
            let mut present = false;
            let mut i: usize = 0;
            while i < args.len()
                invariant
                    i <= args.len(),
                    present == exists|k: int|
                        0 <= k < i && #[trigger] arg_views(args@)[k] == "--no-progress"@,
                decreases args.len() - i,
            {
                let a = to_chars(args[i].as_str());
                assert(a@ == arg_views(args@)[i as int]);
                if eq_str(&a, "--no-progress") {
                    present = true;
                }
                i += 1;
            }
            if !present {
                let ghost old = out@;
                let t = string_of("--no-progress");
                out.push(t);
                proof {
                    lemma_arg_views_push(old, t);
                }
            }
        }
        out
    }

    /// Condenses `npm` output by subcommand.
    pub fn filter(&self, output: &str, args: &[String]) -> (r: String)
        ensures
            r@ == npm_result(output@, arg_or_empty(arg_views(args@), 1)),
    {
        let sub = arg_chars(args, 1);
        if is_install_cmd_exec(&sub) {
            filter_install(output)
        } else if eq_str(&sub, "test") || eq_str(&sub, "t") {
            filter_test(output)
        } else if eq_str(&sub, "run") {
            filter_run_script(output)
        } else {
            string_of(output)
        }
    }
}

} // verus!
