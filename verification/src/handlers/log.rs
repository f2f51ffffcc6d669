use vstd::prelude::*;

use crate::pattern::{compile, regex_compiles, regex_replace_all, replace_all, Pattern};
use crate::text::{
    append_chars, append_str, contains, contains_str, copy_chars, decimal, decimal_chars,
    from_chars, join, join_newline, lemma_join_prefix, lemma_views_push, lines, lines_of,
    lemma_contains_trans, lemma_join_contains, matches_at,
    starts_with, to_chars, views,
};
use crate::unicode::{lower_chars, lowercase};

verus! {

/// Output filter for log files.
pub struct LogHandler;

/// Timestamps such as `2024-01-15T10:30:00`.
pub open spec fn timestamp_pattern() -> Seq<char> {
    "\\d{4}-\\d{2}-\\d{2}[T ]\\d{2}:\\d{2}:\\d{2}"@
}

/// UUIDs.
pub open spec fn uuid_pattern() -> Seq<char> {
    "[0-9a-fA-F]{8}-[0-9a-fA-F]{4}-[0-9a-fA-F]{4}-[0-9a-fA-F]{4}-[0-9a-fA-F]{12}"@
}

/// Hexadecimal numbers of six digits or more.
pub open spec fn hex_pattern() -> Seq<char> {
    "\\b0x[0-9a-fA-F]{6,}\\b"@
}

/// Decimal numbers of six digits or more.
pub open spec fn large_num_pattern() -> Seq<char> {
    "\\b\\d{6,}\\b"@
}

/// Absolute paths of three components or more.
pub open spec fn abs_path_pattern() -> Seq<char> {
    "(?:/[\\w.\\-]+){3,}"@
}

/// All five patterns compile.
pub open spec fn log_patterns_compile() -> bool {
    &&& regex_compiles(timestamp_pattern())
    &&& regex_compiles(uuid_pattern())
    &&& regex_compiles(hex_pattern())
    &&& regex_compiles(large_num_pattern())
    &&& regex_compiles(abs_path_pattern())
}

/// The compiled patterns that normalize log lines.
pub struct LogPatterns {
    timestamp: Pattern,
    uuid: Pattern,
    hex: Pattern,
    large_num: Pattern,
    abs_path: Pattern,
}

impl LogPatterns {
    /// Each pattern is compiled from its source.
    pub closed spec fn wf(&self) -> bool {
        &&& self.timestamp.source() == timestamp_pattern()
        &&& self.uuid.source() == uuid_pattern()
        &&& self.hex.source() == hex_pattern()
        &&& self.large_num.source() == large_num_pattern()
        &&& self.abs_path.source() == abs_path_pattern()
    }

    /// Compiles the five patterns; `None` where one of them does not compile.
    pub fn new() -> (r: Option<LogPatterns>)
        ensures
            r is Some <==> log_patterns_compile(),
            r matches Some(p) ==> p.wf(),
    {
        let timestamp = compile("\\d{4}-\\d{2}-\\d{2}[T ]\\d{2}:\\d{2}:\\d{2}");
        let uuid = compile(
            "[0-9a-fA-F]{8}-[0-9a-fA-F]{4}-[0-9a-fA-F]{4}-[0-9a-fA-F]{4}-[0-9a-fA-F]{12}",
        );
        let hex = compile("\\b0x[0-9a-fA-F]{6,}\\b");
        let large_num = compile("\\b\\d{6,}\\b");
        let abs_path = compile("(?:/[\\w.\\-]+){3,}");
        match (timestamp, uuid, hex, large_num, abs_path) {
            (Some(timestamp), Some(uuid), Some(hex), Some(large_num), Some(abs_path)) => Some(
                LogPatterns { timestamp, uuid, hex, large_num, abs_path },
            ),
            _ => None,
        }
    }
}

/// A log line with timestamps, UUIDs, long hexadecimal and decimal numbers and
/// absolute paths replaced by placeholders, in that order.
pub open spec fn normalize(line: Seq<char>) -> Seq<char> {
    let s = regex_replace_all(timestamp_pattern(), line, "<TS>"@);
    let s = regex_replace_all(uuid_pattern(), s, "<UUID>"@);
    let s = regex_replace_all(hex_pattern(), s, "<HEX>"@);
    let s = regex_replace_all(large_num_pattern(), s, "<NUM>"@);
    regex_replace_all(abs_path_pattern(), s, "<PATH>"@)
}

/// Normalizing a log line replaces, in turn, timestamps such as `2024-01-15 10:30:00`
/// by `<TS>`, UUIDs by `<UUID>`, `0x` numbers of six hex digits or more by `<HEX>`,
/// numbers of six digits or more by `<NUM>` and paths of three components or more by
/// `<PATH>`.
pub proof fn law_normalize_placeholders(line: Seq<char>)
    ensures
        normalize(line) == regex_replace_all(
            "(?:/[\\w.\\-]+){3,}"@,
            regex_replace_all(
                "\\b\\d{6,}\\b"@,
                regex_replace_all(
                    "\\b0x[0-9a-fA-F]{6,}\\b"@,
                    regex_replace_all(
                        "[0-9a-fA-F]{8}-[0-9a-fA-F]{4}-[0-9a-fA-F]{4}-[0-9a-fA-F]{4}-[0-9a-fA-F]{12}"@,
                        regex_replace_all(
                            "\\d{4}-\\d{2}-\\d{2}[T ]\\d{2}:\\d{2}:\\d{2}"@,
                            line,
                            "<TS>"@,
                        ),
                        "<UUID>"@,
                    ),
                    "<HEX>"@,
                ),
                "<NUM>"@,
            ),
            "<PATH>"@,
        ),
{
}

/// Replaces the parts of a log line that vary between repeats by placeholders.
pub fn normalize_line(line: &str, pats: &LogPatterns) -> (r: String)
    requires
        pats.wf(),
    ensures
        r@ == normalize(line@),
{
    let s = replace_all(&pats.timestamp, line, "<TS>");
    let s = replace_all(&pats.uuid, s.as_str(), "<UUID>");
    let s = replace_all(&pats.hex, s.as_str(), "<HEX>");
    let s = replace_all(&pats.large_num, s.as_str(), "<NUM>");
    replace_all(&pats.abs_path, s.as_str(), "<PATH>")
}

/// In lower case, the line speaks of an error, a fatal failure, a panic or an exception.
pub open spec fn is_error_text(line: Seq<char>) -> bool {
    let l = lowercase(line);
    contains(l, "error"@) || contains(l, "fatal"@) || contains(l, "panic"@) || contains(
        l,
        "exception"@,
    )
}

/// In lower case, the line speaks of a warning.
pub open spec fn is_warning_text(line: Seq<char>) -> bool {
    contains(lowercase(line), "warn"@)
}

/// Whether the line speaks of an error.
pub fn is_error_line(line: &str) -> (r: bool)
    ensures
        r == is_error_text(line@),
{
    let c = to_chars(line);
    is_error_chars(&c)
}

/// Whether the line speaks of a warning.
pub fn is_warning_line(line: &str) -> (r: bool)
    ensures
        r == is_warning_text(line@),
{
    let c = to_chars(line);
    is_warning_chars(&c)
}

fn is_error_chars(line: &Vec<char>) -> (r: bool)
    ensures
        r == is_error_text(line@),
{
    let l = lower_chars(line);
    contains_str(&l, "error") || contains_str(&l, "fatal") || contains_str(&l, "panic")
        || contains_str(&l, "exception")
}

fn is_warning_chars(line: &Vec<char>) -> (r: bool)
    ensures
        r == is_warning_text(line@),
{
    let l = lower_chars(line);
    contains_str(&l, "warn")
}


/// The distinct lines of `ns`, each where it first occurs.
pub open spec fn distinct(ns: Seq<Seq<char>>) -> Seq<Seq<char>>
    decreases ns.len(),
{
    if ns.len() == 0 {
        seq![]
    } else if distinct(ns.drop_last()).contains(ns.last()) {
        distinct(ns.drop_last())
    } else {
        distinct(ns.drop_last()).push(ns.last())
    }
}

/// How often `x` occurs in `ns`.
pub open spec fn count_of(ns: Seq<Seq<char>>, x: Seq<char>) -> nat
    decreases ns.len(),
{
    if ns.len() == 0 {
        0
    } else {
        count_of(ns.drop_last(), x) + if ns.last() == x {
            1nat
        } else {
            0nat
        }
    }
}

/// Each line of `order` with its count in `ns`.
pub open spec fn entries(order: Seq<Seq<char>>, ns: Seq<Seq<char>>) -> Seq<(nat, Seq<char>)> {
    order.map_values(|n: Seq<char>| (count_of(ns, n), n))
}

/// The position where an entry of count `c` goes into `s`: after every entry with a
/// count of at least `c`.
pub open spec fn first_below(s: Seq<(nat, Seq<char>)>, c: nat) -> nat
    decreases s.len(),
{
    if s.len() == 0 || s[0].0 < c {
        0
    } else {
        1 + first_below(s.drop_first(), c)
    }
}

/// `s` sorted by descending count, entries of equal count in their order in `s`
/// (what the stable `sort_by` with the reversed count order gives).
pub open spec fn sort_desc(s: Seq<(nat, Seq<char>)>) -> Seq<(nat, Seq<char>)>
    decreases s.len(),
{
    if s.len() == 0 {
        s
    } else {
        let sorted = sort_desc(s.drop_last());
        sorted.insert(first_below(sorted, s.last().0) as int, s.last())
    }
}

/// An entry has count `c`.
pub open spec fn has_count(c: nat) -> spec_fn((nat, Seq<char>)) -> bool {
    |e: (nat, Seq<char>)| e.0 == c
}

/// The entries of `s` with count `c`, in their order in `s`.
pub open spec fn with_count(s: Seq<(nat, Seq<char>)>, c: nat) -> Seq<(nat, Seq<char>)> {
    s.filter(has_count(c))
}

proof fn lemma_first_below_bounds(s: Seq<(nat, Seq<char>)>, c: nat)
    ensures
        first_below(s, c) <= s.len(),
        forall|i: int| 0 <= i < first_below(s, c) ==> #[trigger] s[i].0 >= c,
        first_below(s, c) < s.len() ==> s[first_below(s, c) as int].0 < c,
    decreases s.len(),
{
    if s.len() > 0 && s[0].0 >= c {
        lemma_first_below_bounds(s.drop_first(), c);
        assert forall|i: int| 0 <= i < first_below(s, c) implies #[trigger] s[i].0 >= c by {
            if i > 0 {
                assert(s[i] == s.drop_first()[i - 1]);
            }
        }
    }
}

/// Sorting entries by count puts larger counts first, and keeps the entries of each
/// count in their order (the sort is stable).
pub proof fn law_sort_desc(s: Seq<(nat, Seq<char>)>)
    ensures
        sort_desc(s).len() == s.len(),
        forall|i: int, j: int|
            0 <= i < j < sort_desc(s).len() ==> #[trigger] sort_desc(s)[i].0 >= #[trigger] sort_desc(
                s,
            )[j].0,
        forall|c: nat| #[trigger] with_count(sort_desc(s), c) == with_count(s, c),
    decreases s.len(),
{
    if s.len() > 0 {
        let t = s.drop_last();
        let e = s.last();
        law_sort_desc(t);
        let sorted = sort_desc(t);
        let p = first_below(sorted, e.0) as int;
        lemma_first_below_bounds(sorted, e.0);
        let r = sorted.insert(p, e);
        assert(sort_desc(s) == r);
        sorted.insert_ensures(p, e);
        assert forall|i: int, j: int| 0 <= i < j < r.len() implies #[trigger] r[i].0 >= #[trigger] r[j].0 by {
            if i < p {
                if j < p {
                    assert(sorted[i].0 >= sorted[j].0);
                } else if j > p {
                    assert(r[j] == sorted[j - 1]);
                    assert(sorted[i].0 >= sorted[j - 1].0);
                }
            } else if i == p {
                assert(r[j] == sorted[j - 1]);
                if j - 1 > p {
                    assert(sorted[p].0 >= sorted[j - 1].0);
                }
            } else {
                assert(r[i] == sorted[i - 1]);
                assert(r[j] == sorted[j - 1]);
                assert(sorted[i - 1].0 >= sorted[j - 1].0);
            }
        }
        let front = sorted.subrange(0, p);
        let back = sorted.subrange(p, sorted.len() as int);
        assert(r == front.push(e) + back);
        assert(sorted == front + back);
        assert(s == t.push(e));
        assert forall|c: nat| #[trigger] with_count(r, c) == with_count(s, c) by {
            let f = has_count(c);
            Seq::filter_distributes_over_add(front.push(e), back, f);
            Seq::filter_distributes_over_add(front, back, f);
            front.lemma_filter_push(e, f);
            t.lemma_filter_push(e, f);
            assert(with_count(sorted, c) == with_count(t, c));
            assert(with_count(sorted, c) == sorted.filter(f));
            assert(sorted.filter(f) == front.filter(f) + back.filter(f));
            assert(r.filter(f) == front.push(e).filter(f) + back.filter(f));
            assert(s.filter(f) == t.push(e).filter(f));
            if c == e.0 {
                assert(f(e));
                if back.filter(f).len() > 0 {
                    back.lemma_filter_pred(f, 0);
                    back.lemma_filter_contains_rev(f, back.filter(f)[0]);
                    let k = choose|k: int| 0 <= k < back.len() && back[k] == back.filter(f)[0];
                    assert(back[k] == sorted[p + k]);
                    if k > 0 {
                        assert(sorted[p].0 >= sorted[p + k].0);
                    }
                    assert(false);
                }
                assert(back.filter(f) =~= Seq::<(nat, Seq<char>)>::empty());
                assert(front.push(e).filter(f) == front.filter(f).push(e));
                assert(t.push(e).filter(f) == t.filter(f).push(e));
                assert(r.filter(f) =~= front.filter(f).push(e));
                assert(sorted.filter(f) =~= front.filter(f));
            } else {
                assert(!f(e));
                assert(front.push(e).filter(f) == front.filter(f));
                assert(t.push(e).filter(f) == t.filter(f));
            }
            assert(with_count(r, c) == r.filter(f));
            assert(with_count(s, c) == s.filter(f));
        }
    }
}

/// A summary line for an error.
pub open spec fn error_summary_line(e: (nat, Seq<char>)) -> Seq<char> {
    "[ERRORx"@ + decimal(e.0) + "] "@ + e.1
}

/// A summary line for a warning.
pub open spec fn warning_summary_line(e: (nat, Seq<char>)) -> Seq<char> {
    "[WARNx"@ + decimal(e.0) + "] "@ + e.1
}

/// The first `n` of `s`, or all of it where it is shorter.
pub open spec fn at_most<A>(s: Seq<A>, n: int) -> Seq<A> {
    if s.len() > n {
        s.take(n)
    } else {
        s
    }
}

/// The summary block: a heading, the ten most frequent errors, the five most frequent
/// warnings and a blank line; nothing where there is no error and no warning.
pub open spec fn summary_block(errors: Seq<(nat, Seq<char>)>, warnings: Seq<(nat, Seq<char>)>) -> Seq<
    Seq<char>,
> {
    if errors.len() == 0 && warnings.len() == 0 {
        seq![]
    } else {
        seq!["--- Log Summary ---"@] + at_most(errors, 10).map_values(
            |e: (nat, Seq<char>)| error_summary_line(e),
        ) + at_most(warnings, 5).map_values(|e: (nat, Seq<char>)| warning_summary_line(e))
            + seq![seq![]]
    }
}

/// The summary block lists at most the ten most frequent errors and the five most
/// frequent warnings, between a heading and a blank line; it is empty where there is
/// neither.
pub proof fn law_summary_block_size(errors: Seq<(nat, Seq<char>)>, warnings: Seq<(nat, Seq<char>)>)
    ensures
        summary_block(errors, warnings).len() == if errors.len() == 0 && warnings.len() == 0 {
            0
        } else {
            2 + (if errors.len() > 10 {
                10
            } else {
                errors.len() as int
            }) + (if warnings.len() > 5 {
                5
            } else {
                warnings.len() as int
            })
        },
{
}

/// A deduplicated line with its repeat count.
pub open spec fn body_line(n: Seq<char>, c: nat) -> Seq<char> {
    if c == 1 {
        n
    } else {
        n + "  [×"@ + decimal(c) + "]"@
    }
}

/// A line seen once is shown as it is; a line seen `c` times more than once is shown
/// with `  [×c]` after it.
pub proof fn law_body_line(n: Seq<char>, c: nat)
    ensures
        c == 1 ==> body_line(n, c) == n,
        c != 1 ==> body_line(n, c) == n + "  [×"@ + decimal(c) + "]"@,
{
}

/// The lines that the log filter prints: a summary of errors and warnings, then each
/// distinct normalized line once with its repeat count, at most 200 lines in all.
pub open spec fn log_lines(output: Seq<char>) -> Seq<Seq<char>> {
    let ns = lines(output).map_values(|l: Seq<char>| normalize(l));
    let order = distinct(ns);
    let errors = sort_desc(entries(order.filter(|n: Seq<char>| is_error_text(n)), ns));
    let warnings = sort_desc(
        entries(order.filter(|n: Seq<char>| !is_error_text(n) && is_warning_text(n)), ns),
    );
    let summary = summary_block(errors, warnings);
    let body = order.map_values(|n: Seq<char>| body_line(n, count_of(ns, n)));
    summary + at_most(body, 200 - summary.len())
}

/// What the log filter returns: its lines, joined.
pub open spec fn log_result(output: Seq<char>) -> Seq<char> {
    join(log_lines(output), seq!['\n'])
}

/// The log filter prints at most 200 lines.
pub proof fn law_log_lines_capped(output: Seq<char>)
    ensures
        log_lines(output).len() <= 200,
{
}

/// The counts of the lines of `order` in `ns`, added up.
pub open spec fn total_count(order: Seq<Seq<char>>, ns: Seq<Seq<char>>) -> nat
    decreases order.len(),
{
    if order.len() == 0 {
        0
    } else {
        total_count(order.drop_last(), ns) + count_of(ns, order.last())
    }
}

proof fn lemma_total_count_push(order: Seq<Seq<char>>, ns: Seq<Seq<char>>, l: Seq<char>)
    requires
        order.no_duplicates(),
    ensures
        total_count(order, ns.push(l)) == total_count(order, ns) + if order.contains(l) {
            1nat
        } else {
            0nat
        },
    decreases order.len(),
{
    assert(ns.push(l).drop_last() =~= ns);
    if order.len() > 0 {
        let o = order.drop_last();
        assert(o.no_duplicates());
        lemma_total_count_push(o, ns, l);
        if o.contains(l) {
            let k = choose|k: int| 0 <= k < o.len() && o[k] == l;
            assert(order[k] == l);
            assert(order.last() != l);
            assert(order.contains(l));
        } else if order.contains(l) {
            let k = choose|k: int| 0 <= k < order.len() && order[k] == l;
            if k < o.len() {
                assert(o[k] == l);
            }
            assert(order.last() == l);
        } else {
            assert(order.last() != l);
        }
    }
}

/// Every line is counted in exactly one group: the repeat counts of the distinct lines
/// add up to the number of lines.
pub proof fn law_counts_add_up(ns: Seq<Seq<char>>)
    ensures
        total_count(distinct(ns), ns) == ns.len(),
    decreases ns.len(),
{
    if ns.len() > 0 {
        let t = ns.drop_last();
        let l = ns.last();
        assert(ns == t.push(l));
        law_counts_add_up(t);
        law_distinct_lines(t);
        let d = distinct(t);
        lemma_total_count_push(d, t, l);
        if !d.contains(l) {
            lemma_distinct_contains(t, l);
            assert(count_of(t, l) == 0);
            assert(count_of(ns, l) == 1);
            assert(distinct(ns) == d.push(l));
            assert(d.push(l).drop_last() =~= d);
        }
    }
}

/// A log line whose normalized text, in lower case, speaks of an error, a fatal failure,
/// a panic or an exception is reported as an error: the result opens with the summary
/// heading followed by an `[ERRORx..]` line.
pub proof fn law_error_lines_summarized(output: Seq<char>, i: int)
    requires
        0 <= i < lines(output).len(),
        ({
            let l = lowercase(normalize(lines(output)[i]));
            ||| contains(l, "error"@)
            ||| contains(l, "fatal"@)
            ||| contains(l, "panic"@)
            ||| contains(l, "exception"@)
        }),
    ensures
        starts_with(log_result(output), "--- Log Summary ---\n[ERRORx"@),
{
    let ns = lines(output).map_values(|l: Seq<char>| normalize(l));
    assert(ns[i] == normalize(lines(output)[i]));
    assert(is_error_text(ns[i]));
    let order = distinct(ns);
    law_distinct_lines(ns);
    assert(ns.contains(ns[i]));
    assert(order.contains(ns[i]));
    let k = choose|k: int| 0 <= k < order.len() && order[k] == ns[i];
    let f = |n: Seq<char>| is_error_text(n);
    order.lemma_filter_contains(f, k);
    let errs = order.filter(f);
    assert(errs.len() > 0);
    let errors = sort_desc(entries(errs, ns));
    law_sort_desc(entries(errs, ns));
    assert(errors.len() > 0);
    let warnings = sort_desc(
        entries(order.filter(|n: Seq<char>| !is_error_text(n) && is_warning_text(n)), ns),
    );
    let summary = summary_block(errors, warnings);
    let body = order.map_values(|n: Seq<char>| body_line(n, count_of(ns, n)));
    let ls = summary + at_most(body, 200 - summary.len());
    assert(log_lines(output) == ls);
    let heading = "--- Log Summary ---"@;
    let first = error_summary_line(errors[0]);
    assert(ls[0] == heading);
    assert(ls[1] == first);
    lemma_join_prefix(ls, seq!['\n'], 2);
    let two = ls.take(2);
    assert(two.len() == 2);
    assert(two.drop_last() =~= seq![heading]);
    assert(join(two.drop_last(), seq!['\n']) == heading);
    assert(two.last() == first);
    assert(join(two, seq!['\n']) == heading + seq!['\n'] + first);
    reveal_strlit("--- Log Summary ---");
    reveal_strlit("[ERRORx");
    reveal_strlit("--- Log Summary ---\n[ERRORx");
    let want = "--- Log Summary ---\n[ERRORx"@;
    assert(want =~= heading + seq!['\n'] + "[ERRORx"@);
    let r = log_result(output);
    let p = join(two, seq!['\n']);
    assert(r.take(p.len() as int) == p);
    assert(p.take(want.len() as int) =~= want);
    assert(r.take(want.len() as int) =~= want);
}

/// A log line whose normalized text, in lower case, speaks of a warning ("warn") but not
/// of an error, a fatal failure, a panic or an exception is reported as a warning: the
/// result holds a `[WARNx..]` line.
pub proof fn law_warning_lines_summarized(output: Seq<char>, i: int)
    requires
        0 <= i < lines(output).len(),
        ({
            let l = lowercase(normalize(lines(output)[i]));
            &&& contains(l, "warn"@)
            &&& !contains(l, "error"@)
            &&& !contains(l, "fatal"@)
            &&& !contains(l, "panic"@)
            &&& !contains(l, "exception"@)
        }),
    ensures
        contains(log_result(output), "[WARNx"@),
{
    let ns = lines(output).map_values(|l: Seq<char>| normalize(l));
    assert(ns[i] == normalize(lines(output)[i]));
    let order = distinct(ns);
    law_distinct_lines(ns);
    assert(ns.contains(ns[i]));
    assert(order.contains(ns[i]));
    let k = choose|k: int| 0 <= k < order.len() && order[k] == ns[i];
    let f = |n: Seq<char>| !is_error_text(n) && is_warning_text(n);
    order.lemma_filter_contains(f, k);
    let ws = order.filter(f);
    let errors = sort_desc(entries(order.filter(|n: Seq<char>| is_error_text(n)), ns));
    let warnings = sort_desc(entries(ws, ns));
    law_sort_desc(entries(ws, ns));
    assert(warnings.len() > 0);
    let summary = summary_block(errors, warnings);
    let body = order.map_values(|n: Seq<char>| body_line(n, count_of(ns, n)));
    let ls = summary + at_most(body, 200 - summary.len());
    assert(log_lines(output) == ls);
    let ne = at_most(errors, 10).len() as int;
    let w = warning_summary_line(warnings[0]);
    assert(ls[1 + ne] == w);
    lemma_join_contains(ls, seq!['\n'], 1 + ne);
    reveal_strlit("[WARNx");
    assert(w.subrange(0, 6) =~= "[WARNx"@);
    assert(matches_at(w, "[WARNx"@, 0));
    lemma_contains_trans(log_result(output), w, "[WARNx"@);
}

/// Grouping keeps one copy of each normalized line: the groups hold no line twice, and
/// hold exactly the lines that occur, each with a count of at least one.
pub proof fn law_distinct_lines(ns: Seq<Seq<char>>)
    ensures
        distinct(ns).no_duplicates(),
        forall|x: Seq<char>| #[trigger] distinct(ns).contains(x) <==> ns.contains(x),
        forall|x: Seq<char>| #[trigger] distinct(ns).contains(x) <==> count_of(ns, x) > 0,
    decreases ns.len(),
{
    assert forall|x: Seq<char>| #[trigger] distinct(ns).contains(x) <==> ns.contains(x) by {
        lemma_distinct_contains(ns, x);
    }
    assert forall|x: Seq<char>| #[trigger] distinct(ns).contains(x) <==> count_of(ns, x) > 0 by {
        lemma_distinct_contains(ns, x);
    }
    if ns.len() > 0 {
        law_distinct_lines(ns.drop_last());
        let d = distinct(ns.drop_last());
        let l = ns.last();
        if !d.contains(l) {
            let e = d.push(l);
            assert(distinct(ns) == e);
            assert forall|i: int, j: int| 0 <= i < e.len() && 0 <= j < e.len() && i != j implies e[i]
                != e[j] by {
                if i < d.len() && j < d.len() {
                    assert(e[i] == d[i]);
                    assert(e[j] == d[j]);
                } else if i < d.len() {
                    assert(e[i] == d[i]);
                    if e[i] == e[j] {
                        assert(d.contains(l));
                    }
                } else {
                    assert(e[j] == d[j]);
                    if e[i] == e[j] {
                        assert(d.contains(l));
                    }
                }
            }
        }
    }
}

/// The counts and texts of a vector of entries.
pub open spec fn entry_views(v: Seq<(usize, Vec<char>)>) -> Seq<(nat, Seq<char>)> {
    v.map_values(|e: (usize, Vec<char>)| (e.0 as nat, e.1@))
}

proof fn lemma_entry_views_push(v: Seq<(usize, Vec<char>)>, e: (usize, Vec<char>))
    ensures
        entry_views(v.push(e)) == entry_views(v).push((e.0 as nat, e.1@)),
{
    assert(entry_views(v.push(e)) =~= entry_views(v).push((e.0 as nat, e.1@)));
}

proof fn lemma_first_below(s: Seq<(nat, Seq<char>)>, c: nat, k: int)
    requires
        0 <= k <= s.len(),
        forall|j: int| 0 <= j < k ==> (#[trigger] s[j]).0 >= c,
        k == s.len() || s[k].0 < c,
    ensures
        first_below(s, c) == k,
    decreases k,
{
    if k > 0 {
        lemma_first_below(s.drop_first(), c, k - 1);
    }
}

proof fn lemma_count_step(ns: Seq<Seq<char>>, i: int, x: Seq<char>)
    requires
        0 <= i < ns.len(),
    ensures
        count_of(ns.take(i + 1), x) == count_of(ns.take(i), x) + if ns[i] == x {
            1nat
        } else {
            0nat
        },
{
    assert(ns.take(i + 1).drop_last() =~= ns.take(i));
}

proof fn lemma_distinct_contains(ns: Seq<Seq<char>>, x: Seq<char>)
    ensures
        distinct(ns).contains(x) <==> ns.contains(x),
        count_of(ns, x) > 0 <==> ns.contains(x),
    decreases ns.len(),
{
    if ns.len() > 0 {
        lemma_distinct_contains(ns.drop_last(), x);
        if ns.contains(x) {
            if ns.last() != x {
                let k = choose|k: int| 0 <= k < ns.len() && ns[k] == x;
                assert(ns.drop_last()[k] == x);
            }
        }
        if ns.drop_last().contains(x) {
            let k = choose|k: int| 0 <= k < ns.drop_last().len() && ns.drop_last()[k] == x;
            assert(ns[k] == x);
        }
        if distinct(ns.drop_last()).contains(ns.last()) {
            assert(distinct(ns) == distinct(ns.drop_last()));
        } else {
            let d = distinct(ns.drop_last());
            assert(distinct(ns) == d.push(ns.last()));
            if d.push(ns.last()).contains(x) && x != ns.last() {
                let k = choose|k: int| 0 <= k < d.push(ns.last()).len() && d.push(ns.last())[k] == x;
                assert(d[k] == x);
            }
            if d.contains(x) {
                let k = choose|k: int| 0 <= k < d.len() && d[k] == x;
                assert(d.push(ns.last())[k] == x);
            }
            if x == ns.last() {
                assert(d.push(ns.last())[d.len() as int] == x);
            }
        }
        if x == ns.last() {
            assert(ns[ns.len() - 1] == x);
        }
    }
}

/// Stable insertion of entries, by descending count.
fn sort_entries(v: Vec<(usize, Vec<char>)>) -> (r: Vec<(usize, Vec<char>)>)
    ensures
        entry_views(r@) == sort_desc(entry_views(v@)),
{
    let mut sorted: Vec<(usize, Vec<char>)> = Vec::new();
    let mut i: usize = 0;
    while i < v.len()
        invariant
            i <= v.len(),
            entry_views(sorted@) == sort_desc(entry_views(v@).take(i as int)),
        decreases v.len() - i,
    {
        let c = v[i].0;
        let mut k: usize = 0;
        while k < sorted.len() && sorted[k].0 >= c
            invariant
                k <= sorted.len(),
                forall|j: int| 0 <= j < k ==> (#[trigger] entry_views(sorted@)[j]).0 >= c,
            decreases sorted.len() - k,
        {
            assert(entry_views(sorted@)[k as int].0 == sorted@[k as int].0);
            k += 1;
        }
        proof {
            if k < sorted.len() {
                assert(entry_views(sorted@)[k as int].0 == sorted@[k as int].0);
            }
            lemma_first_below(entry_views(sorted@), c as nat, k as int);
            let t = entry_views(v@).take(i + 1);
            assert(t.drop_last() =~= entry_views(v@).take(i as int));
            assert(t.last() == (v@[i as int].0 as nat, v@[i as int].1@));
        }
        let e = (c, copy_chars(&v[i].1));
        let ghost old_sorted = sorted@;
        sorted.insert(k, e);
        proof {
            assert(entry_views(sorted@) =~= entry_views(old_sorted).insert(
                k as int,
                (e.0 as nat, e.1@),
            ));
        }
        i += 1;
    }
    assert(entry_views(v@).take(v.len() as int) =~= entry_views(v@));
    sorted
}


proof fn lemma_entries_push(s: Seq<Seq<char>>, x: Seq<char>, ns: Seq<Seq<char>>)
    ensures
        entries(s.push(x), ns) == entries(s, ns).push((count_of(ns, x), x)),
{
    assert(entries(s.push(x), ns) =~= entries(s, ns).push((count_of(ns, x), x)));
}

fn eq_chars(a: &Vec<char>, b: &Vec<char>) -> (r: bool)
    ensures
        r == (a@ == b@),
{
    if a.len() != b.len() {
        return false;
    }
    let mut i: usize = 0;
    while i < a.len()
        invariant
            i <= a.len() == b.len(),
            forall|k: int| 0 <= k < i ==> a@[k] == b@[k],
        decreases a.len() - i,
    {
        if a[i] != b[i] {
            return false;
        }
        i += 1;
    }
    assert(a@ =~= b@);
    true
}

fn entry_line(prefix: &str, e: &(usize, Vec<char>)) -> (r: Vec<char>)
    ensures
        r@ == prefix@ + decimal(e.0 as nat) + "] "@ + e.1@,
{
    let mut line: Vec<char> = Vec::new();
    append_str(&mut line, prefix);
    let num = decimal_chars(e.0);
    append_chars(&mut line, &num);
    append_str(&mut line, "] ");
    append_chars(&mut line, &e.1);
    line
}

/// Groups repeated log lines, with a summary of errors and warnings first; the patterns
/// must be compiled from their sources.
pub fn filter_with_patterns(output: &str, pats: &LogPatterns) -> (r: String)
    requires
        pats.wf(),
    ensures
        r@ == log_result(output@),
{
    let ls = lines_of(output);
    let ghost nsv = views(ls@).map_values(|l: Seq<char>| normalize(l));
    let mut ns: Vec<Vec<char>> = Vec::new();
    let mut i: usize = 0;
    while i < ls.len()
        invariant
            i <= ls.len(),
            pats.wf(),
            nsv == views(ls@).map_values(|l: Seq<char>| normalize(l)),
            views(ns@) == nsv.take(i as int),
        decreases ls.len() - i,
    {
        let s = from_chars(&ls[i]);
        let n = normalize_line(s.as_str(), pats);
        let c = to_chars(n.as_str());
        let ghost old_ns = ns@;
        ns.push(c);
        proof {
            lemma_views_push(old_ns, c);
            assert(views(ls@)[i as int] == ls@[i as int]@);
            assert(views(ns@) =~= nsv.take(i + 1));
        }
        i += 1;
    }
    assert(nsv.take(ls.len() as int) =~= nsv);
    // Group equal normalized lines, in order of first occurrence.
    let mut order: Vec<Vec<char>> = Vec::new();
    let mut counts: Vec<usize> = Vec::new();
    let mut i: usize = 0;
    while i < ns.len()
        invariant
            i <= ns.len(),
            views(ns@) == nsv,
            views(order@) == distinct(nsv.take(i as int)),
            counts.len() == order.len(),
            forall|a: int, b: int| 0 <= a < b < order.len() ==> order@[a]@ != order@[b]@,
            forall|k: int|
                0 <= k < order.len() ==> #[trigger] counts@[k] == count_of(
                    nsv.take(i as int),
                    order@[k]@,
                ) && counts@[k] <= i,
        decreases ns.len() - i,
    {
        let x = &ns[i];
        assert(nsv[i as int] == x@);
        let mut k: usize = 0;
        while k < order.len() && !eq_chars(&order[k], x)
            invariant
                k <= order.len(),
                forall|j: int| 0 <= j < k ==> order@[j]@ != x@,
            decreases order.len() - k,
        {
            k += 1;
        }
        proof {
            let t = nsv.take(i + 1);
            assert(t.drop_last() =~= nsv.take(i as int));
            assert(t.last() == x@);
            assert forall|y: Seq<char>| count_of(t, y) == count_of(nsv.take(i as int), y) + if x@
                == y {
                1nat
            } else {
                0nat
            } by {
                lemma_count_step(nsv, i as int, y);
            }
            lemma_distinct_contains(nsv.take(i as int), x@);
        }
        if k < order.len() {
            proof {
                assert(views(order@)[k as int] == x@);
                assert(distinct(nsv.take(i as int)).contains(x@));
            }
            let c = counts[k];
            counts.set(k, c + 1);
        } else {
            proof {
                assert forall|j: int| 0 <= j < views(order@).len() implies views(order@)[j] != x@ by {
                    assert(views(order@)[j] == order@[j]@);
                }
                assert(!distinct(nsv.take(i as int)).contains(x@));
            }
            let ghost old_order = order@;
            let c = copy_chars(x);
            order.push(c);
            counts.push(1);
            proof {
                lemma_views_push(old_order, c);
            }
        }
        i += 1;
    }
    assert(nsv.take(ns.len() as int) =~= nsv);
    let ghost order_s = views(order@);
    // Errors and warnings, with their counts.
    let mut errs: Vec<(usize, Vec<char>)> = Vec::new();
    let mut warns: Vec<(usize, Vec<char>)> = Vec::new();
    let mut k: usize = 0;
    while k < order.len()
        invariant
            k <= order.len(),
            order_s == views(order@),
            counts.len() == order.len(),
            forall|j: int| 0 <= j < order.len() ==> #[trigger] counts@[j] == count_of(nsv, order@[j]@),
            entry_views(errs@) == entries(
                order_s.take(k as int).filter(|n: Seq<char>| is_error_text(n)),
                nsv,
            ),
            entry_views(warns@) == entries(
                order_s.take(k as int).filter(|n: Seq<char>| !is_error_text(n) && is_warning_text(n)),
                nsv,
            ),
        decreases order.len() - k,
    {
        let n = &order[k];
        assert(order_s[k as int] == n@);
        let is_err = is_error_chars(n);
        let is_warn = !is_err && is_warning_chars(n);
        let ghost old_errs = errs@;
        let ghost old_warns = warns@;
        if is_err {
            errs.push((counts[k], copy_chars(n)));
        } else if is_warn {
            warns.push((counts[k], copy_chars(n)));
        }
        proof {
            reveal(Seq::filter);
            let t = order_s.take(k + 1);
            assert(t.drop_last() =~= order_s.take(k as int));
            assert(t.last() == n@);
            if is_err {
                lemma_entry_views_push(old_errs, errs@.last());
                lemma_entries_push(
                    order_s.take(k as int).filter(|n: Seq<char>| is_error_text(n)),
                    n@,
                    nsv,
                );
            }
            if is_warn {
                lemma_entry_views_push(old_warns, warns@.last());
                lemma_entries_push(
                    order_s.take(k as int).filter(
                        |n: Seq<char>| !is_error_text(n) && is_warning_text(n),
                    ),
                    n@,
                    nsv,
                );
            }
        }
        k += 1;
    }
    assert(order_s.take(order.len() as int) =~= order_s);
    let errs = sort_entries(errs);
    let warns = sort_entries(warns);
    let ghost errs_s = entry_views(errs@);
    let ghost warns_s = entry_views(warns@);
    let ghost summary = summary_block(errs_s, warns_s);
    let mut out: Vec<Vec<char>> = Vec::new();
    if errs.len() > 0 || warns.len() > 0 {
        let mut head: Vec<char> = Vec::new();
        append_str(&mut head, "--- Log Summary ---");
        out.push(head);
        let ne = if errs.len() > 10 {
            10
        } else {
            errs.len()
        };
        let mut j: usize = 0;
        while j < ne
            invariant
                j <= ne <= errs.len(),
                ne == at_most(errs_s, 10).len(),
                errs_s == entry_views(errs@),
                views(out@) == seq!["--- Log Summary ---"@] + at_most(errs_s, 10).map_values(
                    |e: (nat, Seq<char>)| error_summary_line(e),
                ).take(j as int),
            decreases ne - j,
        {
            let line = entry_line("[ERRORx", &errs[j]);
            let ghost old_out = out@;
            out.push(line);
            proof {
                lemma_views_push(old_out, line);
                assert(errs_s[j as int] == (errs@[j as int].0 as nat, errs@[j as int].1@));
                assert(at_most(errs_s, 10)[j as int] == errs_s[j as int]);
                assert(views(out@) =~= seq!["--- Log Summary ---"@] + at_most(errs_s, 10).map_values(
                    |e: (nat, Seq<char>)| error_summary_line(e),
                ).take(j + 1));
            }
            j += 1;
        }
        let ghost after_errs = views(out@);
        let nw = if warns.len() > 5 {
            5
        } else {
            warns.len()
        };
        let mut j: usize = 0;
        while j < nw
            invariant
                j <= nw <= warns.len(),
                nw == at_most(warns_s, 5).len(),
                warns_s == entry_views(warns@),
                views(out@) == after_errs + at_most(warns_s, 5).map_values(
                    |e: (nat, Seq<char>)| warning_summary_line(e),
                ).take(j as int),
            decreases nw - j,
        {
            let line = entry_line("[WARNx", &warns[j]);
            let ghost old_out = out@;
            out.push(line);
            proof {
                lemma_views_push(old_out, line);
                assert(warns_s[j as int] == (warns@[j as int].0 as nat, warns@[j as int].1@));
                assert(at_most(warns_s, 5)[j as int] == warns_s[j as int]);
                assert(views(out@) =~= after_errs + at_most(warns_s, 5).map_values(
                    |e: (nat, Seq<char>)| warning_summary_line(e),
                ).take(j + 1));
            }
            j += 1;
        }
        let ghost old_out = out@;
        let blank: Vec<char> = Vec::new();
        out.push(blank);
        proof {
            lemma_views_push(old_out, blank);
            let em = at_most(errs_s, 10).map_values(|e: (nat, Seq<char>)| error_summary_line(e));
            let wm = at_most(warns_s, 5).map_values(|e: (nat, Seq<char>)| warning_summary_line(e));
            assert(em.take(ne as int) =~= em);
            assert(wm.take(nw as int) =~= wm);
            assert(views(out@) =~= summary);
        }
    } else {
        assert(views(out@) =~= summary);
    }
    let ghost body = order_s.map_values(|n: Seq<char>| body_line(n, count_of(nsv, n)));
    assert(out.len() == summary.len());
    assert(out.len() <= 200);
    let room = 200 - out.len();
    let nb = if order.len() > room {
        room
    } else {
        order.len()
    };
    let mut j: usize = 0;
    while j < nb
        invariant
            j <= nb <= order.len(),
            nb == at_most(body, 200 - summary.len()).len(),
            room == 200 - summary.len(),
            nb <= room,
            order_s == views(order@),
            body == order_s.map_values(|n: Seq<char>| body_line(n, count_of(nsv, n))),
            counts.len() == order.len(),
            forall|q: int| 0 <= q < order.len() ==> #[trigger] counts@[q] == count_of(nsv, order@[q]@),
            views(out@) == summary + at_most(body, 200 - summary.len()).take(j as int),
        decreases nb - j,
    {
        let mut line = copy_chars(&order[j]);
        if counts[j] != 1 {
            append_str(&mut line, "  [×");
            let num = decimal_chars(counts[j]);
            append_chars(&mut line, &num);
            append_str(&mut line, "]");
        }
        let ghost old_out = out@;
        out.push(line);
        proof {
            lemma_views_push(old_out, line);
            assert(order_s[j as int] == order@[j as int]@);
            assert(at_most(body, 200 - summary.len())[j as int] == body[j as int]);
            assert(views(out@) =~= summary + at_most(body, 200 - summary.len()).take(j + 1));
        }
        j += 1;
    }
    assert(at_most(body, 200 - summary.len()).take(nb as int) =~= at_most(
        body,
        200 - summary.len(),
    ));
    join_newline(&out)
}

impl LogHandler {
    /// Groups repeated log lines, with a summary of errors and warnings first. Where the
    /// patterns do not compile, the output comes back unchanged.
    pub fn filter(&self, output: &str, _args: &[String]) -> (r: String)
        ensures
            log_patterns_compile() ==> r@ == log_result(output@),
            !log_patterns_compile() ==> r@ == output@,
    {
        match LogPatterns::new() {
            Some(p) => filter_with_patterns(output, &p),
            None => crate::text::string_of(output),
        }
    }
}

} // verus!
