use vstd::prelude::*;

use crate::text::{
    any_line, append_chars, append_str, arg_chars, arg_or_empty, arg_views, args_chars, contains,
    contains_str, copy_chars, decimal, decimal_chars, eq_str, find, find_chars, first_word,
    first_word_exec, from_chars, join, join_chars, join_newline, keep_lines, last_index_of_char,
    last_index_of_char_exec, lemma_filter_join_contains, lemma_find, lemma_views_push, lemma_join_contains, lines, lines_of, slice_chars,
    split_char, split_char_exec, starts_with, starts_with_char, starts_with_char_exec,
    starts_with_str, string_of, to_chars, trim, trim_chars, truncate_chars, truncate_exec, views,
};

verus! {

/// Output filter for `gh`.
pub struct GhHandler;

/// `t` has the form `![...](...)`, with nothing but whitespace after the last `)`.
pub open spec fn is_image_only(line: Seq<char>) -> bool {
    let t = trim(line);
    starts_with(t, "!["@) && match find(t, "]("@) {
        Some(k) => {
            let after = t.skip(k + 2);
            match last_index_of_char(after, ')') {
                Some(p) => trim(after.skip(p + 1)).len() == 0,
                None => false,
            }
        },
        None => false,
    }
}

/// Whether the line is an image or badge and nothing else.
pub fn is_image_only_line(line: &str) -> (r: bool)
    ensures
        r == is_image_only(line@),
{
    let c = to_chars(line);
    is_image_only_chars(&c)
}

/// Cuts `s` to `max` characters, marking a cut with `…`.
pub fn truncate(s: &str, max: usize) -> (r: String)
    ensures
        r@ == truncate_chars(s@, max as nat),
{
    let c = to_chars(s);
    let t = truncate_exec(&c, max);
    from_chars(&t)
}

fn is_image_only_chars(line: &Vec<char>) -> (r: bool)
    ensures
        r == is_image_only(line@),
{
    let t = trim_chars(line);
    if !starts_with_str(&t, "![") {
        return false;
    }
    let pat = to_chars("](");
    proof {
        lemma_find(t@, pat@);
        reveal_strlit("](");
    }
    match find_chars(&t, &pat) {
        Some(k) => {
            assert(pat@.len() == 2);
            assert(crate::text::matches_at(t@, pat@, k as int));
            assert(k + 2 <= t@.len());
            assert(k + 2 <= t.len());
            let after = slice_chars(&t, k + 2, t.len());
            assert(after@ =~= t@.skip(k + 2));
            match last_index_of_char_exec(&after, ')') {
                Some(p) => {
                    let trailing = slice_chars(&after, p + 1, after.len());
                    assert(trailing@ =~= after@.skip(p + 1));
                    trim_chars(&trailing).len() == 0
                },
                None => false,
            }
        },
        None => false,
    }
}

/// Where `filter_pr_view` stands between two lines.
pub struct PrViewState {
    pub in_body: bool,
    pub body_lines: nat,
    pub blanks: nat,
}

/// A header line of `gh pr view` output.
pub open spec fn is_pr_header(t: Seq<char>) -> bool {
    starts_with(t, "title:"@) || starts_with(t, "state:"@) || starts_with(t, "author:"@)
}

/// One line of `gh pr view` output: the next state and the lines it emits.
pub open spec fn pr_view_step(st: PrViewState, line: Seq<char>) -> (PrViewState, Seq<Seq<char>>) {
    let t = trim(line);
    if is_pr_header(t) {
        (st, seq![line])
    } else if starts_with(t, "--"@) {
        (PrViewState { in_body: true, ..st }, seq![])
    } else if st.in_body && st.body_lines < 20 {
        if starts_with(t, "<!--"@) || is_image_only(t) || t == "---"@ || t == "***"@ {
            (st, seq![])
        } else if t.len() == 0 {
            if st.blanks + 1 >= 3 {
                (PrViewState { blanks: st.blanks + 1, ..st }, seq![])
            } else {
                (
                    PrViewState { blanks: st.blanks + 1, body_lines: st.body_lines + 1, ..st },
                    seq![line],
                )
            }
        } else {
            (PrViewState { blanks: 0, body_lines: st.body_lines + 1, ..st }, seq![line])
        }
    } else if starts_with(t, "checks:"@) || starts_with(t, "review decision:"@) {
        (st, seq![line])
    } else {
        (st, seq![])
    }
}

/// In a `gh pr view` body, at most 20 lines are kept: a line with text is kept and
/// counted, a blank line is kept and counted only while fewer than three blank lines
/// run together, and once 20 are kept only header and checks lines follow.
pub proof fn law_pr_view_body(st: PrViewState, line: Seq<char>)
    requires
        st.in_body,
        !(starts_with(trim(line), "title:"@) || starts_with(trim(line), "state:"@) || starts_with(
            trim(line),
            "author:"@,
        )),
        !starts_with(trim(line), "--"@),
    ensures
        st.body_lines < 20 && trim(line).len() > 0 && !starts_with(trim(line), "<!--"@)
            && !is_image_only(trim(line)) && trim(line) != "---"@ && trim(line) != "***"@ ==> (
        pr_view_step(st, line).1 == seq![line] && pr_view_step(st, line).0.body_lines
            == st.body_lines + 1 && pr_view_step(st, line).0.blanks == 0),
        st.body_lines < 20 && trim(line).len() == 0 ==> pr_view_step(st, line).0.blanks == st.blanks
            + 1 && (st.blanks + 1 < 3 ==> pr_view_step(st, line).1 == seq![line]
            && pr_view_step(st, line).0.body_lines == st.body_lines + 1) && (st.blanks + 1 >= 3
            ==> pr_view_step(st, line).1.len() == 0),
        st.body_lines >= 20 && !starts_with(trim(line), "checks:"@) && !starts_with(
            trim(line),
            "review decision:"@,
        ) ==> pr_view_step(st, line).1.len() == 0,
{
    reveal_strlit("<!--");
    reveal_strlit("---");
    reveal_strlit("***");
    reveal_strlit("![");
    let t = trim(line);
    if t.len() == 0 {
        assert(!starts_with(t, "<!--"@));
        assert(!starts_with(t, "!["@));
        assert(!is_image_only(t));
        assert(t != "---"@);
        assert(t != "***"@);
    }
}

/// `pr_view_step` over all of `ls`.
pub open spec fn pr_view_run(ls: Seq<Seq<char>>) -> (PrViewState, Seq<Seq<char>>)
    decreases ls.len(),
{
    if ls.len() == 0 {
        (PrViewState { in_body: false, body_lines: 0, blanks: 0 }, seq![])
    } else {
        let prev = pr_view_run(ls.drop_last());
        let next = pr_view_step(prev.0, ls.last());
        (next.0, prev.1 + next.1)
    }
}

/// What `filter_pr_view` returns: the header lines, at most twenty body lines without
/// comments, images, rules and runs of blank lines, and the checks; the output itself
/// where nothing is kept.
pub open spec fn pr_view_result(output: Seq<char>) -> Seq<char> {
    let out = pr_view_run(lines(output)).1;
    if out.len() == 0 {
        output
    } else {
        join(out, seq!['\n'])
    }
}

proof fn lemma_pr_view_run_headers(ls: Seq<Seq<char>>, k: int)
    requires
        0 <= k < ls.len(),
        is_pr_header(trim(ls[k])),
    ensures
        pr_view_run(ls).1.contains(ls[k]),
    decreases ls.len(),
{
    let prev = pr_view_run(ls.drop_last());
    let next = pr_view_step(prev.0, ls.last());
    assert(pr_view_run(ls).1 == prev.1 + next.1);
    if k == ls.len() - 1 {
        assert(next.1 == seq![ls[k]]);
        assert((prev.1 + next.1)[prev.1.len() as int] == ls[k]);
    } else {
        assert(ls.drop_last()[k] == ls[k]);
        lemma_pr_view_run_headers(ls.drop_last(), k);
        let m = choose|m: int| 0 <= m < prev.1.len() && prev.1[m] == ls[k];
        assert((prev.1 + next.1)[m] == ls[k]);
    }
}

proof fn lemma_pr_view_run_no_comments(ls: Seq<Seq<char>>)
    ensures
        forall|m: int|
            0 <= m < pr_view_run(ls).1.len() ==> {
                let t = trim(#[trigger] pr_view_run(ls).1[m]);
                !starts_with(t, "<!--"@) && t != "---"@ && t != "***"@
            },
    decreases ls.len(),
{
    reveal_strlit("<!--");
    reveal_strlit("---");
    reveal_strlit("***");
    reveal_strlit("--");
    reveal_strlit("title:");
    reveal_strlit("state:");
    reveal_strlit("author:");
    reveal_strlit("checks:");
    reveal_strlit("review decision:");
    if ls.len() > 0 {
        lemma_pr_view_run_no_comments(ls.drop_last());
        let prev = pr_view_run(ls.drop_last());
        let next = pr_view_step(prev.0, ls.last());
        let all = prev.1 + next.1;
        assert(pr_view_run(ls).1 == all);
        let t = trim(ls.last());
        let bad = starts_with(t, "<!--"@) || t == "---"@ || t == "***"@;
        if bad {
            let c = t[0];
            assert(starts_with(t, "<!--"@) ==> t.take(4)[0] == c);
            assert(t == "---"@ ==> c == '-');
            assert(t == "***"@ ==> c == '*');
            assert(c == '<' || c == '-' || c == '*');
            assert(starts_with(t, "title:"@) ==> t.take(6)[0] == c);
            assert(starts_with(t, "state:"@) ==> t.take(6)[0] == c);
            assert(starts_with(t, "author:"@) ==> t.take(7)[0] == c);
            assert(starts_with(t, "checks:"@) ==> t.take(7)[0] == c);
            assert(starts_with(t, "review decision:"@) ==> t.take(16)[0] == c);
            assert(!is_pr_header(t));
            assert(starts_with(t, "--"@) ==> t.take(2)[0] == c);
            if t == "---"@ {
                assert(t.take(2) =~= "--"@);
            }
            assert(next.1.len() == 0);
        }
        assert forall|m: int| 0 <= m < all.len() implies {
            let u = trim(#[trigger] all[m]);
            !starts_with(u, "<!--"@) && u != "---"@ && u != "***"@
        } by {
            if m < prev.1.len() {
                assert(all[m] == prev.1[m]);
            } else {
                assert(next.1.len() > 0);
                assert(all[m] == ls.last());
            }
        }
    }
}

/// `gh pr view` lines whose trimmed text starts with "title:", "state:" or "author:"
/// are always kept; lines starting with "<!--" and "---" or "***" rules never are.
pub proof fn law_pr_view_lines(output: Seq<char>, k: int)
    ensures
        (0 <= k < lines(output).len() && ({
            let t = trim(lines(output)[k]);
            starts_with(t, "title:"@) || starts_with(t, "state:"@) || starts_with(t, "author:"@)
        })) ==> contains(pr_view_result(output), lines(output)[k]),
        forall|m: int|
            0 <= m < pr_view_run(lines(output)).1.len() ==> {
                let t = trim(#[trigger] pr_view_run(lines(output)).1[m]);
                !starts_with(t, "<!--"@) && t != "---"@ && t != "***"@
            },
{
    let ls = lines(output);
    lemma_pr_view_run_no_comments(ls);
    if 0 <= k < ls.len() && is_pr_header(trim(ls[k])) {
        lemma_pr_view_run_headers(ls, k);
        let out = pr_view_run(ls).1;
        let m = choose|m: int| 0 <= m < out.len() && out[m] == ls[k];
        lemma_join_contains(out, seq!['\n'], m);
    }
}

/// Condenses `gh pr view` output.
pub fn filter_pr_view(output: &str) -> (r: String)
    ensures
        r@ == pr_view_result(output@),
{
    let ls = lines_of(output);
    let mut out: Vec<Vec<char>> = Vec::new();
    let mut in_body = false;
    let mut body_lines: usize = 0;
    let mut blanks: usize = 0;
    let mut i: usize = 0;
    while i < ls.len()
        invariant
            i <= ls.len(),
            body_lines <= i,
            blanks <= i,
            pr_view_run(views(ls@).take(i as int)) == (
                PrViewState { in_body, body_lines: body_lines as nat, blanks: blanks as nat },
                views(out@),
            ),
        decreases ls.len() - i,
    {
        let line = &ls[i];
        let ghost old_out = out@;
        proof {
            assert(views(ls@).take(i + 1).drop_last() =~= views(ls@).take(i as int));
            assert(views(ls@).take(i + 1).last() == line@);
        }
        let t = trim_chars(line);
        let mut emit = false;
        if starts_with_str(&t, "title:") || starts_with_str(&t, "state:") || starts_with_str(
            &t,
            "author:",
        ) {
            emit = true;
        } else if starts_with_str(&t, "--") {
            in_body = true;
        } else if in_body && body_lines < 20 {
            if starts_with_str(&t, "<!--") || is_image_only_chars(&t) || eq_str(&t, "---") || eq_str(
                &t,
                "***",
            ) {
            } else if t.len() == 0 {
                blanks += 1;
                if blanks < 3 {
                    emit = true;
                    body_lines += 1;
                }
            } else {
                blanks = 0;
                emit = true;
                body_lines += 1;
            }
        } else if starts_with_str(&t, "checks:") || starts_with_str(&t, "review decision:") {
            emit = true;
        }
        if emit {
            out.push(copy_chars(line));
            proof {
                lemma_views_push(old_out, out@.last());
            }
        } else {
            assert(views(out@) =~= views(old_out) + seq![]);
        }
        i += 1;
    }
    assert(views(ls@).take(ls.len() as int) =~= views(ls@));
    if out.len() == 0 {
        string_of(output)
    } else {
        join_newline(&out)
    }
}


/// A line with more than whitespace.
pub open spec fn is_nonblank(l: Seq<char>) -> bool {
    trim(l).len() > 0
}

fn is_nonblank_exec(l: &Vec<char>) -> (r: bool)
    ensures
        r == is_nonblank(l@),
{
    trim_chars(l).len() > 0
}

/// A line of `gh pr list`: `#number title [state] @author` where it has four tab-separated
/// columns, the title cut to sixty characters; else the line as it is.
pub open spec fn pr_list_line(line: Seq<char>) -> Seq<char> {
    let cols = split_char(trim(line), '\t');
    if cols.len() >= 4 {
        "#"@ + cols[0] + " "@ + truncate_chars(cols[1], 60) + " ["@ + cols[2] + "] @"@ + cols[3]
    } else {
        line
    }
}

/// A line of `gh issue list`: `#number title [labels] @assignee` where it has three
/// tab-separated columns or more; else the line as it is.
pub open spec fn issue_list_line(line: Seq<char>) -> Seq<char> {
    let cols = split_char(trim(line), '\t');
    if cols.len() >= 3 {
        "#"@ + cols[0] + " "@ + truncate_chars(cols[1], 60) + " ["@ + cols[2] + "] @"@ + (if cols.len()
            >= 4 {
            cols[3]
        } else {
            seq![]
        })
    } else {
        line
    }
}

/// What `filter_pr_list` returns.
pub open spec fn pr_list_result(output: Seq<char>) -> Seq<char> {
    join(
        lines(output).filter(|l: Seq<char>| is_nonblank(l)).map_values(
            |l: Seq<char>| pr_list_line(l),
        ),
        seq!['\n'],
    )
}

/// What `filter_issue_list` returns.
pub open spec fn issue_list_result(output: Seq<char>) -> Seq<char> {
    join(
        lines(output).filter(|l: Seq<char>| is_nonblank(l)).map_values(
            |l: Seq<char>| issue_list_line(l),
        ),
        seq!['\n'],
    )
}

/// Each `gh pr list` line with four tab-separated columns or more shows as
/// `#number title [state] @author`, the title cut to 60 characters.
pub proof fn law_pr_list_rows(output: Seq<char>, k: int)
    requires
        0 <= k < lines(output).len(),
        split_char(trim(lines(output)[k]), '\t').len() >= 4,
    ensures
        ({
            let c = split_char(trim(lines(output)[k]), '\t');
            contains(
                pr_list_result(output),
                "#"@ + c[0] + " "@ + truncate_chars(c[1], 60) + " ["@ + c[2] + "] @"@ + c[3],
            )
        }),
{
    let ls = lines(output);
    if trim(ls[k]).len() == 0 {
        assert(split_char(trim(ls[k]), '\t').len() <= 1);
    }
    let f = |l: Seq<char>| is_nonblank(l);
    ls.lemma_filter_contains(f, k);
    let kept = ls.filter(f);
    let m = choose|m: int| 0 <= m < kept.len() && kept[m] == ls[k];
    let rows = kept.map_values(|l: Seq<char>| pr_list_line(l));
    assert(rows[m] == pr_list_line(ls[k]));
    lemma_join_contains(rows, seq!['\n'], m);
}

/// Each `gh issue list` line with three tab-separated columns or more shows as
/// `#number title [labels] @assignee`, the title cut to 60 characters.
pub proof fn law_issue_list_rows(output: Seq<char>, k: int)
    requires
        0 <= k < lines(output).len(),
        split_char(trim(lines(output)[k]), '\t').len() >= 3,
    ensures
        ({
            let c = split_char(trim(lines(output)[k]), '\t');
            contains(
                issue_list_result(output),
                "#"@ + c[0] + " "@ + truncate_chars(c[1], 60) + " ["@ + c[2] + "] @"@ + (if c.len()
                    >= 4 {
                    c[3]
                } else {
                    seq![]
                }),
            )
        }),
{
    let ls = lines(output);
    if trim(ls[k]).len() == 0 {
        assert(split_char(trim(ls[k]), '\t').len() <= 1);
    }
    let f = |l: Seq<char>| is_nonblank(l);
    ls.lemma_filter_contains(f, k);
    let kept = ls.filter(f);
    let m = choose|m: int| 0 <= m < kept.len() && kept[m] == ls[k];
    let rows = kept.map_values(|l: Seq<char>| issue_list_line(l));
    assert(rows[m] == issue_list_line(ls[k]));
    lemma_join_contains(rows, seq!['\n'], m);
}

fn list_line_exec(line: &Vec<char>, min_cols: usize) -> (r: Vec<char>)
    requires
        min_cols == 3 || min_cols == 4,
    ensures
        min_cols == 4 ==> r@ == pr_list_line(line@),
        min_cols == 3 ==> r@ == issue_list_line(line@),
{
    let t = trim_chars(line);
    let cols = split_char_exec(&t, '\t');
    if cols.len() >= min_cols {
        let ghost cs = views(cols@);
        assert(cs[0] == cols@[0]@ && cs[1] == cols@[1]@ && cs[2] == cols@[2]@);
        let mut r: Vec<char> = Vec::new();
        append_str(&mut r, "#");
        append_chars(&mut r, &cols[0]);
        append_str(&mut r, " ");
        let title = truncate_exec(&cols[1], 60);
        append_chars(&mut r, &title);
        append_str(&mut r, " [");
        append_chars(&mut r, &cols[2]);
        append_str(&mut r, "] @");
        if cols.len() >= 4 {
            assert(cs[3] == cols@[3]@);
            append_chars(&mut r, &cols[3]);
        }
        proof {
            if cols.len() < 4 {
                assert(r@ =~= r@ + Seq::<char>::empty());
            }
        }
        r
    } else {
        copy_chars(line)
    }
}

fn pr_list_line_exec(line: &Vec<char>) -> (r: Vec<char>)
    ensures
        r@ == pr_list_line(line@),
{
    list_line_exec(line, 4)
}

fn issue_list_line_exec(line: &Vec<char>) -> (r: Vec<char>)
    ensures
        r@ == issue_list_line(line@),
{
    list_line_exec(line, 3)
}

/// Condenses `gh pr list` output to one short line per pull request.
pub fn filter_pr_list(output: &str) -> (r: String)
    ensures
        r@ == pr_list_result(output@),
{
    let ls = lines_of(output);
    let kept = keep_lines(&ls, is_nonblank_exec, Ghost(|l: Seq<char>| is_nonblank(l)));
    let out = crate::text::map_lines(&kept, pr_list_line_exec, Ghost(|l: Seq<char>| pr_list_line(l)));
    join_newline(&out)
}

/// Condenses `gh issue list` output to one short line per issue.
pub fn filter_issue_list(output: &str) -> (r: String)
    ensures
        r@ == issue_list_result(output@),
{
    let ls = lines_of(output);
    let kept = keep_lines(&ls, is_nonblank_exec, Ghost(|l: Seq<char>| is_nonblank(l)));
    let out = crate::text::map_lines(
        &kept,
        issue_list_line_exec,
        Ghost(|l: Seq<char>| issue_list_line(l)),
    );
    join_newline(&out)
}

/// A check that passed.
pub open spec fn is_passed_check(l: Seq<char>) -> bool {
    let t = trim(l);
    t.len() > 0 && (starts_with_char(t, '✓') || contains(t, "pass"@) || contains(t, "success"@))
}

/// A check that failed.
pub open spec fn is_failed_check(l: Seq<char>) -> bool {
    let t = trim(l);
    t.len() > 0 && !is_passed_check(l) && (starts_with_char(t, '✗') || starts_with_char(t, '×')
        || contains(t, "fail"@))
}

/// The name of a failed check: the first word of the line.
pub open spec fn check_name(l: Seq<char>) -> Seq<char> {
    match first_word(trim(l)) {
        Some(w) => w,
        None => trim(l),
    }
}

/// What `filter_pr_checks` returns: the counts of passed and failed checks, then the
/// names of the failed ones.
pub open spec fn pr_checks_result(output: Seq<char>) -> Seq<char> {
    let ls = lines(output);
    let passed = ls.filter(|l: Seq<char>| is_passed_check(l)).len();
    let failed = ls.filter(|l: Seq<char>| is_failed_check(l)).map_values(
        |l: Seq<char>| check_name(l),
    );
    "✓ "@ + decimal(passed) + " passed, ✗ "@ + decimal(failed.len()) + " failed"@ + (if failed.len()
        > 0 {
        seq!['\n'] + join(failed, seq!['\n'])
    } else {
        seq![]
    })
}

/// The counts that the checks filter prints: passed is the number of non-blank lines
/// whose trimmed text starts with '✓' or contains "pass" or "success"; failed is the
/// number of the other non-blank lines whose trimmed text starts with '✗' or '×' or
/// contains "fail".
pub proof fn law_pr_checks_counts(output: Seq<char>)
    ensures
        starts_with(
            pr_checks_result(output),
            "✓ "@ + decimal(
                lines(output).filter(
                    |l: Seq<char>|
                        trim(l).len() > 0 && (starts_with_char(trim(l), '✓') || contains(
                            trim(l),
                            "pass"@,
                        ) || contains(trim(l), "success"@)),
                ).len(),
            ) + " passed, ✗ "@ + decimal(
                lines(output).filter(
                    |l: Seq<char>|
                        trim(l).len() > 0 && !(starts_with_char(trim(l), '✓') || contains(
                            trim(l),
                            "pass"@,
                        ) || contains(trim(l), "success"@)) && (starts_with_char(trim(l), '✗')
                            || starts_with_char(trim(l), '×') || contains(trim(l), "fail"@)),
                ).len(),
            ) + " failed"@,
        ),
{
    let ls = lines(output);
    let p1 = |l: Seq<char>|
        trim(l).len() > 0 && (starts_with_char(trim(l), '✓') || contains(trim(l), "pass"@)
            || contains(trim(l), "success"@));
    let p2 = |l: Seq<char>|
        trim(l).len() > 0 && !(starts_with_char(trim(l), '✓') || contains(trim(l), "pass"@)
            || contains(trim(l), "success"@)) && (starts_with_char(trim(l), '✗')
            || starts_with_char(trim(l), '×') || contains(trim(l), "fail"@));
    let q1 = |l: Seq<char>| is_passed_check(l);
    let q2 = |l: Seq<char>| is_failed_check(l);
    assert(p1 =~= q1);
    assert(p2 =~= q2);
    let failed = ls.filter(q2).map_values(|l: Seq<char>| check_name(l));
    let head = "✓ "@ + decimal(ls.filter(q1).len()) + " passed, ✗ "@ + decimal(failed.len())
        + " failed"@;
    let tail = if failed.len() > 0 {
        seq!['\n'] + join(failed, seq!['\n'])
    } else {
        seq![]
    };
    assert(pr_checks_result(output) == head + tail);
    assert((head + tail).take(head.len() as int) =~= head);
}

fn is_passed_check_exec(l: &Vec<char>) -> (r: bool)
    ensures
        r == is_passed_check(l@),
{
    let t = trim_chars(l);
    t.len() > 0 && (starts_with_char_exec(&t, '✓') || contains_str(&t, "pass") || contains_str(
        &t,
        "success",
    ))
}

fn is_failed_check_exec(l: &Vec<char>) -> (r: bool)
    ensures
        r == is_failed_check(l@),
{
    let t = trim_chars(l);
    t.len() > 0 && !is_passed_check_exec(l) && (starts_with_char_exec(&t, '✗')
        || starts_with_char_exec(&t, '×') || contains_str(&t, "fail"))
}

fn check_name_exec(l: &Vec<char>) -> (r: Vec<char>)
    ensures
        r@ == check_name(l@),
{
    let t = trim_chars(l);
    match first_word_exec(&t) {
        Some(w) => w,
        None => t,
    }
}

/// Counts the passed and failed checks of `gh pr checks` and names the failed ones.
pub fn filter_pr_checks(output: &str) -> (r: String)
    ensures
        r@ == pr_checks_result(output@),
{
    let ls = lines_of(output);
    let passed = keep_lines(&ls, is_passed_check_exec, Ghost(|l: Seq<char>| is_passed_check(l)));
    let failed_lines = keep_lines(
        &ls,
        is_failed_check_exec,
        Ghost(|l: Seq<char>| is_failed_check(l)),
    );
    let failed = crate::text::map_lines(
        &failed_lines,
        check_name_exec,
        Ghost(|l: Seq<char>| check_name(l)),
    );
    assert(views(passed@).len() == passed.len());
    assert(views(failed@).len() == failed.len());
    let mut r: Vec<char> = Vec::new();
    append_str(&mut r, "✓ ");
    let np = decimal_chars(passed.len());
    append_chars(&mut r, &np);
    append_str(&mut r, " passed, ✗ ");
    let nf = decimal_chars(failed.len());
    append_chars(&mut r, &nf);
    append_str(&mut r, " failed");
    if failed.len() > 0 {
        r.push('\n');
        let sep = vec!['\n'];
        assert(sep@ =~= seq!['\n']);
        let j = join_chars(&failed, &sep);
        let ghost before = r@;
        append_chars(&mut r, &j);
        assert(r@ =~= before.drop_last() + (seq!['\n'] + j@));
    } else {
        assert(r@ =~= r@ + Seq::<char>::empty());
    }
    from_chars(&r)
}

/// A line that reports the state of a workflow run.
pub open spec fn is_run_line(l: Seq<char>) -> bool {
    let t = trim(l);
    t.len() > 0 && (contains(t, "completed"@) || contains(t, "in_progress"@) || contains(
        t,
        "queued"@,
    ) || contains(t, "failure"@) || contains(t, "success"@) || contains(t, "cancelled"@))
}

/// What `filter_run` returns: the lines that report a run's state; the output itself
/// where there is none.
pub open spec fn run_result(output: Seq<char>) -> Seq<char> {
    let kept = lines(output).filter(|l: Seq<char>| is_run_line(l));
    if kept.len() == 0 {
        output
    } else {
        join(kept, seq!['\n'])
    }
}

/// Every line of `gh run` output whose trimmed text contains "completed",
/// "in_progress", "queued", "failure", "success" or "cancelled" appears in what the
/// filter returns.
pub proof fn law_run_status_lines_shown(output: Seq<char>, k: int)
    requires
        0 <= k < lines(output).len(),
        ({
            let t = trim(lines(output)[k]);
            ||| contains(t, "completed"@)
            ||| contains(t, "in_progress"@)
            ||| contains(t, "queued"@)
            ||| contains(t, "failure"@)
            ||| contains(t, "success"@)
            ||| contains(t, "cancelled"@)
        }),
    ensures
        contains(run_result(output), lines(output)[k]),
{
    let t = trim(lines(output)[k]);
    if t.len() == 0 {
        reveal_strlit("completed");
        reveal_strlit("in_progress");
        reveal_strlit("queued");
        reveal_strlit("failure");
        reveal_strlit("success");
        reveal_strlit("cancelled");
        assert(false);
    }
    lemma_filter_join_contains(lines(output), |l: Seq<char>| is_run_line(l), seq!['\n'], k);
}

fn is_run_line_exec(l: &Vec<char>) -> (r: bool)
    ensures
        r == is_run_line(l@),
{
    let t = trim_chars(l);
    t.len() > 0 && (contains_str(&t, "completed") || contains_str(&t, "in_progress")
        || contains_str(&t, "queued") || contains_str(&t, "failure") || contains_str(&t, "success")
        || contains_str(&t, "cancelled"))
}

/// Keeps the lines of `gh run list` and `gh run view` that report a run's state.
pub fn filter_run(output: &str) -> (r: String)
    ensures
        r@ == run_result(output@),
{
    let ls = lines_of(output);
    let kept = keep_lines(&ls, is_run_line_exec, Ghost(|l: Seq<char>| is_run_line(l)));
    if kept.len() == 0 {
        string_of(output)
    } else {
        join_newline(&kept)
    }
}

/// The last line of `ls` with more than whitespace.
pub open spec fn last_nonblank(ls: Seq<Seq<char>>) -> Option<Seq<char>>
    decreases ls.len(),
{
    if ls.len() == 0 {
        None
    } else if trim(ls.last()).len() > 0 {
        Some(ls.last())
    } else {
        last_nonblank(ls.drop_last())
    }
}

/// What `last_line` returns: the last non-blank line, or the output where there is none.
pub open spec fn last_line_result(output: Seq<char>) -> Seq<char> {
    match last_nonblank(lines(output)) {
        Some(l) => l,
        None => output,
    }
}

/// For `gh repo clone` and `fork`, the filter returns the last line with more than
/// whitespace, or the output itself where there is none.
pub proof fn law_last_line(output: Seq<char>, j: int)
    ensures
        (0 <= j < lines(output).len() && trim(lines(output)[j]).len() > 0 && forall|m: int|
            j < m < lines(output).len() ==> trim(#[trigger] lines(output)[m]).len() == 0)
            ==> last_line_result(output) == lines(output)[j],
        (forall|m: int| 0 <= m < lines(output).len() ==> trim(#[trigger] lines(output)[m]).len() == 0)
            ==> last_line_result(output) == output,
{
    lemma_last_nonblank(lines(output), j);
}

proof fn lemma_last_nonblank(ls: Seq<Seq<char>>, j: int)
    ensures
        (0 <= j < ls.len() && trim(ls[j]).len() > 0 && forall|m: int|
            j < m < ls.len() ==> trim(#[trigger] ls[m]).len() == 0) ==> last_nonblank(ls) == Some(
            ls[j],
        ),
        (forall|m: int| 0 <= m < ls.len() ==> trim(#[trigger] ls[m]).len() == 0) ==> last_nonblank(
            ls,
        ) is None,
    decreases ls.len(),
{
    if ls.len() > 0 {
        let t = ls.drop_last();
        lemma_last_nonblank(t, j);
        assert forall|m: int| 0 <= m < t.len() implies t[m] == ls[m] by {}
        if 0 <= j < ls.len() - 1 && trim(ls[j]).len() > 0 && forall|m: int|
            j < m < ls.len() ==> trim(#[trigger] ls[m]).len() == 0 {
            assert(trim(ls[ls.len() - 1]).len() == 0);
            assert(t[j] == ls[j]);
            assert forall|m: int| j < m < t.len() implies trim(#[trigger] t[m]).len() == 0 by {
                assert(t[m] == ls[m]);
            }
        }
        if forall|m: int| 0 <= m < ls.len() ==> trim(#[trigger] ls[m]).len() == 0 {
            assert(trim(ls[ls.len() - 1]).len() == 0);
            assert forall|m: int| 0 <= m < t.len() implies trim(#[trigger] t[m]).len() == 0 by {
                assert(t[m] == ls[m]);
            }
        }
    }
}

/// The last non-blank line of the output.
pub fn last_line(output: &str) -> (r: String)
    ensures
        r@ == last_line_result(output@),
{
    let ls = lines_of(output);
    let mut j: usize = ls.len();
    assert(views(ls@).take(ls.len() as int) =~= views(ls@));
    while j > 0
        invariant
            j <= ls.len(),
            views(ls@) == lines(output@),
            last_nonblank(views(ls@)) == last_nonblank(views(ls@).take(j as int)),
        decreases j,
    {
        let ghost t = views(ls@).take(j as int);
        assert(t.last() == ls@[j - 1]@);
        assert(t.drop_last() =~= views(ls@).take(j - 1));
        if trim_chars(&ls[j - 1]).len() > 0 {
            assert(t.len() > 0);
            assert(last_nonblank(t) == Some(t.last()));
            let res = from_chars(&ls[j - 1]);
            assert(res@ == t.last());
            assert(last_nonblank(lines(output@)) == Some(t.last()));
            return res;
        }
        j -= 1;
    }
    string_of(output)
}

/// An argument that asks `gh` for structured output, which is passed through.
pub open spec fn is_bypass_flag(a: Seq<char>) -> bool {
    a == "--json"@ || a == "--jq"@ || a == "--web"@ || a == "--log"@ || a == "--template"@
}

/// Where any argument is `--json`, `--jq`, `--web`, `--log` or `--template`, the `gh`
/// output comes back unchanged.
pub proof fn law_gh_bypass(output: Seq<char>, args: Seq<Seq<char>>, i: int)
    requires
        0 <= i < args.len(),
        ({
            let a = args[i];
            a == "--json"@ || a == "--jq"@ || a == "--web"@ || a == "--log"@ || a == "--template"@
        }),
    ensures
        gh_result(output, args) == output,
{
    assert(is_bypass_flag(args[i]));
}

fn is_bypass_flag_exec(a: &Vec<char>) -> (r: bool)
    ensures
        r == is_bypass_flag(a@),
{
    eq_str(a, "--json") || eq_str(a, "--jq") || eq_str(a, "--web") || eq_str(a, "--log")
        || eq_str(a, "--template")
}

/// What `GhHandler::filter` returns for subcommand `sub` and action `act`.
pub open spec fn gh_route(output: Seq<char>, sub: Seq<char>, act: Seq<char>) -> Seq<char> {
    if sub == "pr"@ && act == "list"@ {
        pr_list_result(output)
    } else if sub == "pr"@ && act == "view"@ {
        pr_view_result(output)
    } else if sub == "pr"@ && act == "checks"@ {
        pr_checks_result(output)
    } else if sub == "issue"@ && act == "list"@ {
        issue_list_result(output)
    } else if sub == "run"@ && (act == "list"@ || act == "view"@) {
        run_result(output)
    } else if sub == "repo"@ && (act == "clone"@ || act == "fork"@) {
        last_line_result(output)
    } else {
        output
    }
}

/// What `GhHandler::filter` returns.
pub open spec fn gh_result(output: Seq<char>, args: Seq<Seq<char>>) -> Seq<char> {
    if exists|i: int| 0 <= i < args.len() && #[trigger] is_bypass_flag(args[i]) {
        output
    } else {
        gh_route(output, arg_or_empty(args, 1), arg_or_empty(args, 2))
    }
}

impl GhHandler {
    /// Condenses `gh` output by subcommand; passes through structured output.
    pub fn filter(&self, output: &str, args: &[String]) -> (r: String)
        ensures
            r@ == gh_result(output@, arg_views(args@)),
    {
        let av = args_chars(args);
        let bypass = any_line(&av, is_bypass_flag_exec, Ghost(|a: Seq<char>| is_bypass_flag(a)));
        proof {
            let pred = |a: Seq<char>| is_bypass_flag(a);
            let v = views(av@);
            if bypass {
                let i = choose|i: int| 0 <= i < av.len() && #[trigger] pred(v[i]);
                assert(is_bypass_flag(v[i]));
            } else {
                assert forall|i: int| 0 <= i < v.len() implies !#[trigger] is_bypass_flag(v[i]) by {
                    assert(!pred(v[i]));
                }
            }
        }
        if bypass {
            return string_of(output);
        }
        let sub = arg_chars(args, 1);
        let act = arg_chars(args, 2);
        if eq_str(&sub, "pr") && eq_str(&act, "list") {
            filter_pr_list(output)
        } else if eq_str(&sub, "pr") && eq_str(&act, "view") {
            filter_pr_view(output)
        } else if eq_str(&sub, "pr") && eq_str(&act, "checks") {
            filter_pr_checks(output)
        } else if eq_str(&sub, "issue") && eq_str(&act, "list") {
            filter_issue_list(output)
        } else if eq_str(&sub, "run") && (eq_str(&act, "list") || eq_str(&act, "view")) {
            filter_run(output)
        } else if eq_str(&sub, "repo") && (eq_str(&act, "clone") || eq_str(&act, "fork")) {
            last_line(output)
        } else {
            string_of(output)
        }
    }
}

} // verus!
