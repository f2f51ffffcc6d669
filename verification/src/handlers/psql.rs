use vstd::prelude::*;

use crate::text::{
    any_line, append_chars, append_str, contains, contains_str, copy_chars, decimal,
    decimal_chars, ends_with, join, join_chars, join_newline, keep_lines, lemma_views_push, lines,
    lines_of, map_lines, slice_chars, split_str, split_str_exec, starts_with, starts_with_char,
    starts_with_char_exec, starts_with_str, string_of, to_chars, trim, trim_chars, views,
    lemma_filter_join_contains, lemma_join_contains, matches_at,
};

verus! {

/// Output filter for `psql`.
pub struct PsqlHandler;

/// The most data rows shown after the header.
pub const MAX_ROWS: usize = 20;

/// A line that reports a failure of the server.
pub open spec fn is_error_line(l: Seq<char>) -> bool {
    starts_with(trim(l), "ERROR:"@) || starts_with(trim(l), "FATAL:"@)
}

/// A line kept when the server failed: the failure with its detail and hint.
pub open spec fn is_error_detail_line(l: Seq<char>) -> bool {
    let t = trim(l);
    ||| starts_with(t, "ERROR:"@)
    ||| starts_with(t, "FATAL:"@)
    ||| starts_with(t, "DETAIL:"@)
    ||| starts_with(t, "HINT:"@)
}

/// Where the server reported an `ERROR:` or `FATAL:` line, every line whose trimmed text
/// starts with `ERROR:`, `FATAL:`, `DETAIL:` or `HINT:` appears in what the filter returns.
pub proof fn law_error_details_shown(output: Seq<char>, j: int, k: int)
    requires
        0 <= j < lines(output).len(),
        starts_with(trim(lines(output)[j]), "ERROR:"@) || starts_with(
            trim(lines(output)[j]),
            "FATAL:"@,
        ),
        0 <= k < lines(output).len(),
        ({
            let t = trim(lines(output)[k]);
            ||| starts_with(t, "ERROR:"@)
            ||| starts_with(t, "FATAL:"@)
            ||| starts_with(t, "DETAIL:"@)
            ||| starts_with(t, "HINT:"@)
        }),
    ensures
        contains(psql_result(output), lines(output)[k]),
{
    assert(is_error_line(lines(output)[j]));
    lemma_filter_join_contains(
        lines(output),
        |l: Seq<char>| is_error_detail_line(l),
        seq!['\n'],
        k,
    );
}

/// Every character is one that draws a table border.
pub open spec fn is_border(t: Seq<char>) -> bool {
    forall|i: int| 0 <= i < t.len() ==> #[trigger] t[i] == '+' || t[i] == '-' || t[i] == '='
}

/// A line of the table that holds data: neither blank nor a border.
pub open spec fn is_data_line(l: Seq<char>) -> bool {
    trim(l).len() > 0 && !is_border(trim(l))
}

/// A line such as `(3 rows)`.
pub open spec fn is_row_count(t: Seq<char>) -> bool {
    starts_with_char(t, '(') && contains(t, "row"@)
}

/// `t` without a leading and a trailing `|`.
pub open spec fn strip_bars(t: Seq<char>) -> Seq<char> {
    let s = if starts_with_char(t, '|') {
        t.drop_first()
    } else {
        t
    };
    if s.len() > 0 && s.last() == '|' {
        s.drop_last()
    } else {
        s
    }
}

/// A table line made clean: row counts as they are, other lines split at ` | ` into
/// trimmed cells joined by `  |  `.
pub open spec fn parse_row(l: Seq<char>) -> Seq<char> {
    let t = trim(l);
    if is_row_count(t) {
        t
    } else {
        join(split_str(strip_bars(t), " | "@).map_values(|c: Seq<char>| trim(c)), "  |  "@)
    }
}

/// A cleaned table line: a `(N rows)` line stays as it is (trimmed); any other line
/// holds each of its ` | `-separated cells, trimmed, with `  |  ` between neighbours.
/// Lines made only of `+`, `-` and `=` are borders and hold no data.
pub proof fn law_parse_row(l: Seq<char>, k: int)
    ensures
        (trim(l).len() > 0 && trim(l)[0] == '(' && contains(trim(l), "row"@)) ==> parse_row(l)
            == trim(l),
        (!(trim(l).len() > 0 && trim(l)[0] == '(' && contains(trim(l), "row"@)) && 0 <= k
            < split_str(strip_bars(trim(l)), " | "@).len()) ==> contains(
            parse_row(l),
            trim(split_str(strip_bars(trim(l)), " | "@)[k]),
        ),
        (!(trim(l).len() > 0 && trim(l)[0] == '(' && contains(trim(l), "row"@)) && 2
            <= split_str(strip_bars(trim(l)), " | "@).len()) ==> contains(parse_row(l), "  |  "@),
        (forall|i: int| 0 <= i < trim(l).len() ==> {
            let c = #[trigger] trim(l)[i];
            c == '+' || c == '-' || c == '='
        }) ==> !is_data_line(l),
{
    let t = trim(l);
    if !is_row_count(t) {
        let cells = split_str(strip_bars(t), " | "@).map_values(|c: Seq<char>| trim(c));
        if 0 <= k < cells.len() {
            lemma_join_contains(cells, "  |  "@, k);
        }
        if cells.len() >= 2 {
            let pre = join(cells.take(2).drop_last(), "  |  "@);
            assert(cells.take(2).drop_last() =~= seq![cells[0]]);
            assert(join(cells.take(2), "  |  "@) == pre + "  |  "@ + cells[1]);
            crate::text::lemma_join_prefix(cells, "  |  "@, 2);
            let j2 = join(cells.take(2), "  |  "@);
            assert(j2.subrange(pre.len() as int, (pre.len() + 5) as int) =~= "  |  "@) by {
                reveal_strlit("  |  ");
            }
            reveal_strlit("  |  ");
            assert(matches_at(j2, "  |  "@, pre.len() as int));
            let whole = join(cells, "  |  "@);
            assert(whole.take(j2.len() as int) == j2);
            assert(whole.subrange(pre.len() as int, (pre.len() + 5) as int) =~= j2.subrange(
                pre.len() as int,
                (pre.len() + 5) as int,
            ));
            assert(matches_at(whole, "  |  "@, pre.len() as int));
        }
    }
}

/// The shown rows: all of them where they fit, else the header, twenty rows and a marker.
pub open spec fn capped_rows(data: Seq<Seq<char>>) -> Seq<Seq<char>> {
    if data.len() <= MAX_ROWS + 1 {
        data
    } else {
        seq![data[0]] + data.subrange(1, MAX_ROWS + 1) + seq![
            "[+"@ + decimal((data.len() - 1 - MAX_ROWS) as nat) + " more rows]"@,
        ]
    }
}

/// A table of up to 21 lines (header and 20 rows) is shown whole; a longer one shows
/// its header and first 20 rows, then a line counting the rows left out.
pub proof fn law_rows_capped(data: Seq<Seq<char>>)
    ensures
        data.len() <= 21 ==> capped_rows(data) == data,
        data.len() > 21 ==> capped_rows(data).len() == 22 && capped_rows(data).take(21) == data.take(
            21,
        ) && capped_rows(data)[21] == "[+"@ + decimal((data.len() - 21) as nat) + " more rows]"@,
{
    if data.len() > 21 {
        assert(capped_rows(data).take(21) =~= data.take(21));
    }
}

/// What `PsqlHandler::filter` returns.
pub open spec fn psql_result(output: Seq<char>) -> Seq<char> {
    let ls = lines(output);
    if ls.len() == 0 {
        output
    } else if exists|i: int| 0 <= i < ls.len() && #[trigger] is_error_line(ls[i]) {
        join(ls.filter(|l: Seq<char>| is_error_detail_line(l)), seq!['\n'])
    } else {
        let data = ls.filter(|l: Seq<char>| is_data_line(l));
        if data.len() == 0 {
            output
        } else {
            let cleaned = data.map_values(|l: Seq<char>| parse_row(l));
            let has_count = is_row_count(trim(cleaned.last()));
            let rows = if has_count {
                cleaned.drop_last()
            } else {
                cleaned
            };
            let tail = if has_count {
                seq![cleaned.last()]
            } else {
                seq![]
            };
            join(capped_rows(rows) + tail, seq!['\n'])
        }
    }
}

fn is_error_line_exec(l: &Vec<char>) -> (r: bool)
    ensures
        r == is_error_line(l@),
{
    let t = trim_chars(l);
    starts_with_str(&t, "ERROR:") || starts_with_str(&t, "FATAL:")
}

fn is_error_detail_line_exec(l: &Vec<char>) -> (r: bool)
    ensures
        r == is_error_detail_line(l@),
{
    let t = trim_chars(l);
    starts_with_str(&t, "ERROR:") || starts_with_str(&t, "FATAL:") || starts_with_str(&t, "DETAIL:")
        || starts_with_str(&t, "HINT:")
}

fn is_border_exec(t: &Vec<char>) -> (r: bool)
    ensures
        r == is_border(t@),
{
    let mut i: usize = 0;
    while i < t.len()
        invariant
            i <= t.len(),
            forall|k: int| 0 <= k < i ==> #[trigger] t@[k] == '+' || t@[k] == '-' || t@[k] == '=',
        decreases t.len() - i,
    {
        if !(t[i] == '+' || t[i] == '-' || t[i] == '=') {
            return false;
        }
        i += 1;
    }
    true
}

fn is_data_line_exec(l: &Vec<char>) -> (r: bool)
    ensures
        r == is_data_line(l@),
{
    let t = trim_chars(l);
    t.len() > 0 && !is_border_exec(&t)
}

fn is_row_count_exec(t: &Vec<char>) -> (r: bool)
    ensures
        r == is_row_count(t@),
{
    starts_with_char_exec(t, '(') && contains_str(t, "row")
}

fn parse_row_exec(l: &Vec<char>) -> (r: Vec<char>)
    ensures
        r@ == parse_row(l@),
{
    let t = trim_chars(l);
    if is_row_count_exec(&t) {
        return t;
    }
    let s1 = if starts_with_char_exec(&t, '|') {
        slice_chars(&t, 1, t.len())
    } else {
        copy_chars(&t)
    };
    let s2 = if s1.len() > 0 && s1[s1.len() - 1] == '|' {
        slice_chars(&s1, 0, s1.len() - 1)
    } else {
        copy_chars(&s1)
    };
    assert(s2@ =~= strip_bars(t@));
    let sep = to_chars(" | ");
    proof {
        reveal_strlit(" | ");
    }
    let cells = split_str_exec(&s2, &sep);
    let trimmed = map_lines(&cells, trim_chars, Ghost(|c: Seq<char>| trim(c)));
    let joiner = to_chars("  |  ");
    join_chars(&trimmed, &joiner)
}

impl PsqlHandler {
    /// Cleans `psql` output: on failure only the error, detail and hint lines; else the
    /// table without borders, with clean separators and at most twenty rows.
    pub fn filter(&self, output: &str, _args: &[String]) -> (r: String)
        ensures
            r@ == psql_result(output@),
    {
        let ls = lines_of(output);
        if ls.len() == 0 {
            return string_of(output);
        }
        let has_error = any_line(&ls, is_error_line_exec, Ghost(|l: Seq<char>| is_error_line(l)));
        proof {
            let pred = |l: Seq<char>| is_error_line(l);
            if has_error {
                let i = choose|i: int| 0 <= i < ls.len() && #[trigger] pred(views(ls@)[i]);
                assert(is_error_line(views(ls@)[i]));
            } else {
                assert forall|i: int| 0 <= i < views(ls@).len() implies !#[trigger] is_error_line(
                    views(ls@)[i],
                ) by {
                    assert(!pred(views(ls@)[i]));
                }
            }
        }
        if has_error {
            let errors = keep_lines(
                &ls,
                is_error_detail_line_exec,
                Ghost(|l: Seq<char>| is_error_detail_line(l)),
            );
            return join_newline(&errors);
        }
        let data = keep_lines(&ls, is_data_line_exec, Ghost(|l: Seq<char>| is_data_line(l)));
        if data.len() == 0 {
            return string_of(output);
        }
        let cleaned = map_lines(&data, parse_row_exec, Ghost(|l: Seq<char>| parse_row(l)));
        let ghost cl = views(cleaned@);
        assert(cl.len() == cleaned.len());
        assert(cl.len() == views(data@).len());
        let last_trim = trim_chars(&cleaned[cleaned.len() - 1]);
        let has_count = is_row_count_exec(&last_trim);
        assert(cl.last() == cleaned@[cleaned.len() - 1]@);
        let n = if has_count {
            cleaned.len() - 1
        } else {
            cleaned.len()
        };
        let ghost rows = if has_count {
            cl.drop_last()
        } else {
            cl
        };
        assert(rows.len() == n);
        let mut out: Vec<Vec<char>> = Vec::new();
        if n <= MAX_ROWS + 1 {
            let mut i: usize = 0;
            while i < n
                invariant
                    i <= n <= cleaned.len(),
                    cl == views(cleaned@),
                    rows.len() == n,
                    forall|k: int| 0 <= k < n ==> #[trigger] rows[k] == cl[k],
                    views(out@) == rows.take(i as int),
                decreases n - i,
            {
                let ghost old_out = out@;
                let c = copy_chars(&cleaned[i]);
                out.push(c);
                proof {
                    lemma_views_push(old_out, c);
                    assert(views(out@) =~= rows.take(i + 1));
                }
                i += 1;
            }
            assert(rows.take(n as int) =~= rows);
        } else {
            let c0 = copy_chars(&cleaned[0]);
            out.push(c0);
            let mut i: usize = 1;
            while i <= MAX_ROWS
                invariant
                    1 <= i <= MAX_ROWS + 1,
                    MAX_ROWS + 1 < n <= cleaned.len(),
                    cl == views(cleaned@),
                    rows.len() == n,
                    forall|k: int| 0 <= k < n ==> #[trigger] rows[k] == cl[k],
                    views(out@) == seq![rows[0]] + rows.subrange(1, i as int),
                decreases MAX_ROWS + 1 - i,
            {
                let ghost old_out = out@;
                let c = copy_chars(&cleaned[i]);
                out.push(c);
                proof {
                    lemma_views_push(old_out, c);
                    assert(views(out@) =~= seq![rows[0]] + rows.subrange(1, i + 1));
                }
                i += 1;
            }
            let mut marker: Vec<char> = Vec::new();
            append_str(&mut marker, "[+");
            let num = decimal_chars(n - 1 - MAX_ROWS);
            append_chars(&mut marker, &num);
            append_str(&mut marker, " more rows]");
            let ghost old_out = out@;
            out.push(marker);
            proof {
                lemma_views_push(old_out, marker);
            }
        }
        assert(views(out@) == capped_rows(rows));
        if has_count {
            let ghost old_out = out@;
            let c = copy_chars(&cleaned[cleaned.len() - 1]);
            out.push(c);
            proof {
                lemma_views_push(old_out, c);
            }
        } else {
            assert(views(out@) =~= views(out@) + seq![]);
        }
        proof {
            let tail = if has_count {
                seq![cl.last()]
            } else {
                seq![]
            };
            assert(views(out@) =~= capped_rows(rows) + tail);
        }
        join_newline(&out)
    }
}

} // verus!
