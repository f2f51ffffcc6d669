use vstd::prelude::*;

use crate::unicode::{upper_chars, uppercase};
use crate::text::{
    to_chars,
    char_index_at_byte, char_index_at_byte_exec, decimal, decimal_chars, is_byte_boundary,
    join_chars, keep_lines, slice_chars, utf8_len, utf8_len_exec, append_str,
    lemma_utf8_len_step, eq_str, starts_with_char, starts_with_char_exec, arg_chars, arg_or_empty,
    arg_views, copy_args, lemma_arg_views_push,
    contains, contains_str, copy_chars, join, join_newline, lines, lines_of, starts_with,
    lemma_contains_trans, lemma_join_contains, lemma_filter_join_contains, lemma_join_ends_with,
    ends_with,
    starts_with_str, string_of, trim, trim_chars, views, lemma_views_push,
};

verus! {

/// Output filter for `kubectl`.
pub struct KubectlHandler;

/// A line that reports a change of a resource, or an error.
pub open spec fn is_change_line(l: Seq<char>) -> bool {
    let t = trim(l);
    &&& t.len() > 0
    &&& {
        ||| contains(t, "created"@)
        ||| contains(t, "deleted"@)
        ||| contains(t, "configured"@)
        ||| contains(t, "unchanged"@)
        ||| contains(t, "error"@)
        ||| contains(t, "Error"@)
        ||| starts_with(t, "deployment."@)
        ||| starts_with(t, "service."@)
        ||| starts_with(t, "pod/"@)
    }
}

/// The change lines of `output`; `output` itself where there is none.
pub open spec fn changes_result(output: Seq<char>) -> Seq<char> {
    let kept = lines(output).filter(|l: Seq<char>| is_change_line(l));
    if kept.len() == 0 {
        output
    } else {
        join(kept, seq!['\n'])
    }
}

/// Every line of `apply`, `delete` or `rollout` output whose trimmed text contains
/// "created", "deleted", "configured", "unchanged", "error" or "Error", or starts with
/// "deployment.", "service." or "pod/", appears in what the filter returns.
pub proof fn law_change_lines_shown(output: Seq<char>, k: int)
    requires
        0 <= k < lines(output).len(),
        ({
            let t = trim(lines(output)[k]);
            ||| contains(t, "created"@)
            ||| contains(t, "deleted"@)
            ||| contains(t, "configured"@)
            ||| contains(t, "unchanged"@)
            ||| contains(t, "error"@)
            ||| contains(t, "Error"@)
            ||| starts_with(t, "deployment."@)
            ||| starts_with(t, "service."@)
            ||| starts_with(t, "pod/"@)
        }),
    ensures
        contains(changes_result(output), lines(output)[k]),
{
    let t = trim(lines(output)[k]);
    if t.len() == 0 {
        reveal_strlit("created");
        reveal_strlit("deleted");
        reveal_strlit("configured");
        reveal_strlit("unchanged");
        reveal_strlit("error");
        reveal_strlit("Error");
        reveal_strlit("deployment.");
        reveal_strlit("service.");
        reveal_strlit("pod/");
        assert(false);
    }
    lemma_filter_join_contains(lines(output), |l: Seq<char>| is_change_line(l), seq!['\n'], k);
}

fn is_change_line_exec(l: &Vec<char>) -> (r: bool)
    ensures
        r == is_change_line(l@),
{
    let t = trim_chars(l);
    t.len() > 0 && (contains_str(&t, "created") || contains_str(&t, "deleted") || contains_str(
        &t,
        "configured",
    ) || contains_str(&t, "unchanged") || contains_str(&t, "error") || contains_str(&t, "Error")
        || starts_with_str(&t, "deployment.") || starts_with_str(&t, "service.")
        || starts_with_str(&t, "pod/"))
}

/// Keeps the lines of `apply`, `delete` and `rollout` output that report a change.
pub fn filter_changes(output: &str) -> (r: String)
    ensures
        r@ == changes_result(output@),
{
    let ls = lines_of(output);
    let ghost pred = |l: Seq<char>| is_change_line(l);
    let mut kept: Vec<Vec<char>> = Vec::new();
    let mut i: usize = 0;
    while i < ls.len()
        invariant
            i <= ls.len(),
            pred == (|l: Seq<char>| is_change_line(l)),
            views(kept@) == views(ls@).take(i as int).filter(pred),
        decreases ls.len() - i,
    {
        let ghost old_kept = kept@;
        let keep = is_change_line_exec(&ls[i]);
        if keep {
            kept.push(copy_chars(&ls[i]));
        }
        proof {
            reveal(Seq::filter);
            assert(views(ls@).take(i + 1).drop_last() =~= views(ls@).take(i as int));
            assert(views(ls@)[i as int] == ls@[i as int]@);
            assert(views(ls@).take(i + 1).last() == views(ls@)[i as int]);
            if keep {
                lemma_views_push(old_kept, kept@.last());
            }
        }
        i += 1;
    }
    assert(views(ls@).take(ls.len() as int) =~= views(ls@));
    if kept.len() == 0 {
        string_of(output)
    } else {
        join_newline(&kept)
    }
}


/// Columns of `kubectl get` tables that are kept.
pub open spec fn is_interesting(n: Seq<char>) -> bool {
    ||| n == "NAME"@
    ||| n == "STATUS"@
    ||| n == "READY"@
    ||| n == "STATE"@
    ||| n == "PHASE"@
    ||| n == "TYPE"@
    ||| n == "CLUSTER-IP"@
    ||| n == "EXTERNAL-IP"@
}

/// The index of the first line that holds more than whitespace, or `ls.len()`.
pub open spec fn first_nonblank(ls: Seq<Seq<char>>) -> int
    decreases ls.len(),
{
    if ls.len() == 0 || trim(ls[0]).len() > 0 {
        0
    } else {
        1 + first_nonblank(ls.drop_first())
    }
}

/// A column starts at character `j` of the header: a non-space after a space or at the start.
pub open spec fn is_col_start(h: Seq<char>, j: int) -> bool {
    h[j] != ' ' && (j == 0 || h[j - 1] == ' ')
}

/// The column starts among the first `n` characters of the header, in order.
pub open spec fn col_starts_upto(h: Seq<char>, n: int) -> Seq<int>
    decreases n,
{
    if n <= 0 {
        seq![]
    } else if is_col_start(h, n - 1) {
        col_starts_upto(h, n - 1).push(n - 1)
    } else {
        col_starts_upto(h, n - 1)
    }
}

/// The character positions where the header's columns start.
pub open spec fn col_starts(h: Seq<char>) -> Seq<int> {
    col_starts_upto(h, h.len() as int)
}

/// Where column `i` of the header ends, in characters.
pub open spec fn col_end(h: Seq<char>, cs: Seq<int>, i: int) -> int {
    if i + 1 < cs.len() {
        cs[i + 1]
    } else {
        h.len() as int
    }
}

/// The name of column `i`: its header text, trimmed and in upper case.
pub open spec fn col_name(h: Seq<char>, cs: Seq<int>, i: int) -> Seq<char> {
    uppercase(trim(h.subrange(cs[i], col_end(h, cs, i))))
}

/// The names of all columns of the header.
pub open spec fn col_names(h: Seq<char>) -> Seq<Seq<char>> {
    Seq::new(col_starts(h).len(), |i: int| col_name(h, col_starts(h), i))
}

/// The indices below `n` of interesting column names.
pub open spec fn interesting_upto(names: Seq<Seq<char>>, n: int) -> Seq<int>
    decreases n,
{
    if n <= 0 {
        seq![]
    } else if is_interesting(names[n - 1]) {
        interesting_upto(names, n - 1).push(n - 1)
    } else {
        interesting_upto(names, n - 1)
    }
}

/// The columns kept: the interesting ones, or else the first three.
pub open spec fn kept_columns(names: Seq<Seq<char>>) -> Seq<int> {
    let it = interesting_upto(names, names.len() as int);
    if it.len() == 0 {
        Seq::new(if names.len() < 3 { names.len() } else { 3 }, |i: int| i)
    } else {
        it
    }
}

/// The byte offset where column `i` starts.
pub open spec fn byte_start(h: Seq<char>, cs: Seq<int>, i: int) -> int {
    utf8_len(h.take(cs[i])) as int
}

/// The byte offset where the cell of column `i` ends in line `l`.
pub open spec fn cell_byte_end(h: Seq<char>, cs: Seq<int>, l: Seq<char>, i: int) -> int {
    if i + 1 < cs.len() && byte_start(h, cs, i + 1) < utf8_len(l) {
        byte_start(h, cs, i + 1)
    } else {
        utf8_len(l) as int
    }
}

/// The cell of column `i` in line `l`: its bytes under the header's column, trimmed.
pub open spec fn cell(h: Seq<char>, cs: Seq<int>, l: Seq<char>, i: int) -> Seq<char> {
    if byte_start(h, cs, i) >= utf8_len(l) {
        seq![]
    } else {
        trim(
            l.subrange(
                char_index_at_byte(l, byte_start(h, cs, i)),
                char_index_at_byte(l, cell_byte_end(h, cs, l, i)),
            ),
        )
    }
}

/// Cutting out the cell of column `i` of line `l` cuts no character apart.
pub open spec fn cell_sliceable(h: Seq<char>, cs: Seq<int>, l: Seq<char>, i: int) -> bool {
    byte_start(h, cs, i) >= utf8_len(l) || (is_byte_boundary(l, byte_start(h, cs, i))
        && is_byte_boundary(l, cell_byte_end(h, cs, l, i)))
}

/// The kept cells of line `l`, separated by tabs.
pub open spec fn table_row(h: Seq<char>, keep: Seq<int>, l: Seq<char>) -> Seq<char> {
    join(keep.map_values(|i: int| cell(h, col_starts(h), l, i)), seq!['\t'])
}

/// The data lines of the table: the non-blank lines after the header.
pub open spec fn table_data(ls: Seq<Seq<char>>, hi: int) -> Seq<Seq<char>> {
    ls.skip(hi + 1).filter(|l: Seq<char>| trim(l).len() > 0)
}

/// The data lines that are shown: the first thirty.
pub open spec fn shown_rows(data: Seq<Seq<char>>) -> Seq<Seq<char>> {
    if data.len() > 30 {
        data.take(30)
    } else {
        data
    }
}

/// The table that `filter_get` prints, given its header line and data lines.
pub open spec fn table_result(h: Seq<char>, data: Seq<Seq<char>>) -> Seq<char> {
    let names = col_names(h);
    let keep = kept_columns(names);
    let header_row = join(keep.map_values(|i: int| names[i]), seq!['\t']);
    let rows = shown_rows(data).map_values(|l: Seq<char>| table_row(h, keep, l));
    let tail = if data.len() > 30 {
        seq!["[+"@ + decimal((data.len() - 30) as nat) + " more]"@]
    } else {
        seq![]
    };
    join(seq![header_row] + rows + tail, seq!['\n'])
}

/// What `filter_get` returns: the table with only its kept columns and at most thirty
/// rows; the output itself where there is no header or no column.
pub open spec fn get_result(output: Seq<char>) -> Seq<char> {
    let ls = lines(output);
    let hi = first_nonblank(ls);
    if ls.len() == 0 || hi >= ls.len() || col_starts(ls[hi]).len() == 0 {
        output
    } else {
        table_result(ls[hi], table_data(ls, hi))
    }
}

/// A `kubectl get` table shows its first 30 data rows, or all where there are fewer;
/// where it has more, what the filter
/// returns ends with a line counting the rows left out.
pub proof fn law_get_rows_capped(output: Seq<char>)
    requires
        ({
            let ls = lines(output);
            first_nonblank(ls) < ls.len() && col_starts(ls[first_nonblank(ls)]).len() > 0
        }),
    ensures
        ({
            let n = table_data(lines(output), first_nonblank(lines(output))).len();
            shown_rows(table_data(lines(output), first_nonblank(lines(output)))).len() == if n > 30 {
                30
            } else {
                n
            }
        }),
        ({
            let n = table_data(lines(output), first_nonblank(lines(output))).len();
            n > 30 ==> ends_with(get_result(output), "[+"@ + decimal((n - 30) as nat) + " more]"@)
        }),
{
    let ls = lines(output);
    let hi = first_nonblank(ls);
    let h = ls[hi];
    let data = table_data(ls, hi);
    let names = col_names(h);
    let keep = kept_columns(names);
    let header_row = join(keep.map_values(|i: int| names[i]), seq!['\t']);
    let rows = shown_rows(data).map_values(|l: Seq<char>| table_row(h, keep, l));
    if data.len() > 30 {
        let t = "[+"@ + decimal((data.len() - 30) as nat) + " more]"@;
        let all = seq![header_row] + rows + seq![t];
        assert(get_result(output) == join(all, seq!['\n']));
        assert(all.last() == t);
        lemma_join_ends_with(all, seq!['\n']);
    }
}

/// Every shown cell can be cut out of its line without cutting a character apart.
pub open spec fn get_sliceable(output: Seq<char>) -> bool {
    let ls = lines(output);
    let hi = first_nonblank(ls);
    let h = ls[hi];
    let keep = kept_columns(col_names(h));
    let shown = shown_rows(table_data(ls, hi));
    ls.len() == 0 || hi >= ls.len() || forall|r: int, k: int|
        0 <= r < shown.len() && 0 <= k < keep.len() ==> cell_sliceable(
            h,
            col_starts(h),
            #[trigger] shown[r],
            #[trigger] keep[k],
        )
}

/// The values of a vector of indices.
pub open spec fn ints(v: Seq<usize>) -> Seq<int> {
    v.map_values(|x: usize| x as int)
}

proof fn lemma_ints_push(v: Seq<usize>, x: usize)
    ensures
        ints(v.push(x)) == ints(v).push(x as int),
{
    assert(ints(v.push(x)) =~= ints(v).push(x as int));
}

proof fn lemma_col_starts_bounds(h: Seq<char>, n: int)
    requires
        0 <= n <= h.len(),
    ensures
        forall|i: int| 0 <= i < col_starts_upto(h, n).len() ==> 0 <= #[trigger] col_starts_upto(h, n)[i] < n,
        forall|i: int, j: int| 0 <= i < j < col_starts_upto(h, n).len() ==> col_starts_upto(h, n)[i] < col_starts_upto(h, n)[j],
    decreases n,
{
    if n > 0 {
        lemma_col_starts_bounds(h, n - 1);
        let p = col_starts_upto(h, n - 1);
        let c = col_starts_upto(h, n);
        if is_col_start(h, n - 1) {
            assert(c == p.push(n - 1));
            assert forall|i: int| 0 <= i < c.len() implies 0 <= #[trigger] c[i] < n by {
                if i < p.len() {
                    assert(c[i] == p[i]);
                }
            }
            assert forall|i: int, j: int| 0 <= i < j < c.len() implies c[i] < c[j] by {
                assert(c[i] == p[i]);
                if j < p.len() {
                    assert(c[j] == p[j]);
                }
            }
        } else {
            assert(c == p);
        }
    }
}

proof fn lemma_interesting_bounds(names: Seq<Seq<char>>, n: int)
    requires
        0 <= n <= names.len(),
    ensures
        forall|i: int| 0 <= i < interesting_upto(names, n).len() ==> 0 <= #[trigger] interesting_upto(names, n)[i] < n,
    decreases n,
{
    if n > 0 {
        lemma_interesting_bounds(names, n - 1);
        let p = interesting_upto(names, n - 1);
        let c = interesting_upto(names, n);
        if is_interesting(names[n - 1]) {
            assert(c == p.push(n - 1));
            assert forall|i: int| 0 <= i < c.len() implies 0 <= #[trigger] c[i] < n by {
                if i < p.len() {
                    assert(c[i] == p[i]);
                }
            }
        } else {
            assert(c == p);
        }
    }
}

fn first_nonblank_exec(ls: &Vec<Vec<char>>) -> (r: usize)
    ensures
        r as int == first_nonblank(views(ls@)),
        r <= ls.len(),
{
    let mut i: usize = 0;
    assert(views(ls@).skip(0) =~= views(ls@));
    while i < ls.len() && trim_chars(&ls[i]).len() == 0
        invariant
            i <= ls.len(),
            first_nonblank(views(ls@)) == i + first_nonblank(views(ls@).skip(i as int)),
        decreases ls.len() - i,
    {
        proof {
            let t = views(ls@).skip(i as int);
            assert(t[0] == ls@[i as int]@);
            assert(t.drop_first() =~= views(ls@).skip(i + 1));
        }
        i += 1;
    }
    proof {
        let t = views(ls@).skip(i as int);
        if i < ls.len() {
            assert(t[0] == ls@[i as int]@);
        }
    }
    assert(views(ls@).skip(0) =~= views(ls@));
    i
}

fn col_starts_exec(h: &Vec<char>) -> (r: Vec<usize>)
    ensures
        ints(r@) == col_starts(h@),
{
    let mut r: Vec<usize> = Vec::new();
    let mut j: usize = 0;
    while j < h.len()
        invariant
            j <= h.len(),
            ints(r@) == col_starts_upto(h@, j as int),
        decreases h.len() - j,
    {
        if h[j] != ' ' && (j == 0 || h[j - 1] == ' ') {
            proof {
                lemma_ints_push(r@, j);
            }
            r.push(j);
        }
        j += 1;
    }
    r
}

fn col_names_exec(h: &Vec<char>, cs: &Vec<usize>) -> (r: Vec<Vec<char>>)
    requires
        ints(cs@) == col_starts(h@),
    ensures
        views(r@) == col_names(h@),
{
    proof {
        lemma_col_starts_bounds(h@, h@.len() as int);
    }
    let mut r: Vec<Vec<char>> = Vec::new();
    let mut i: usize = 0;
    while i < cs.len()
        invariant
            i <= cs.len(),
            ints(cs@) == col_starts(h@),
            forall|k: int| 0 <= k < cs.len() ==> 0 <= #[trigger] col_starts(h@)[k] < h.len(),
            forall|a: int, b: int| 0 <= a < b < cs.len() ==> col_starts(h@)[a] < col_starts(h@)[b],
            views(r@) == col_names(h@).take(i as int),
        decreases cs.len() - i,
    {
        assert(ints(cs@)[i as int] == cs@[i as int] as int);
        let end = if i + 1 < cs.len() {
            assert(ints(cs@)[i + 1] == cs@[i + 1] as int);
            cs[i + 1]
        } else {
            h.len()
        };
        let part = slice_chars(h, cs[i], end);
        let t = trim_chars(&part);
        let name = upper_chars(&t);
        let ghost old_r = r@;
        r.push(name);
        proof {
            lemma_views_push(old_r, name);
            assert(views(r@) =~= col_names(h@).take(i + 1));
        }
        i += 1;
    }
    assert(col_names(h@).take(cs.len() as int) =~= col_names(h@));
    r
}

fn is_interesting_exec(n: &Vec<char>) -> (r: bool)
    ensures
        r == is_interesting(n@),
{
    eq_str(n, "NAME") || eq_str(n, "STATUS") || eq_str(n, "READY") || eq_str(n, "STATE")
        || eq_str(n, "PHASE") || eq_str(n, "TYPE") || eq_str(n, "CLUSTER-IP") || eq_str(
        n,
        "EXTERNAL-IP",
    )
}

fn kept_columns_exec(names: &Vec<Vec<char>>) -> (r: Vec<usize>)
    ensures
        ints(r@) == kept_columns(views(names@)),
        forall|k: int| 0 <= k < r.len() ==> #[trigger] r@[k] < names.len(),
{
    let mut r: Vec<usize> = Vec::new();
    let mut i: usize = 0;
    while i < names.len()
        invariant
            i <= names.len(),
            ints(r@) == interesting_upto(views(names@), i as int),
            forall|k: int| 0 <= k < r.len() ==> #[trigger] r@[k] < i,
        decreases names.len() - i,
    {
        assert(views(names@)[i as int] == names@[i as int]@);
        if is_interesting_exec(&names[i]) {
            proof {
                lemma_ints_push(r@, i);
            }
            r.push(i);
        }
        i += 1;
    }
    if r.len() == 0 {
        let m = if names.len() < 3 {
            names.len()
        } else {
            3
        };
        let mut k: usize = 0;
        while k < m
            invariant
                k <= m <= names.len(),
                m == (if names.len() < 3 { names.len() } else { 3 }),
                ints(r@) == Seq::new(k as nat, |x: int| x),
                forall|j: int| 0 <= j < r.len() ==> #[trigger] r@[j] < names.len(),
            decreases m - k,
        {
            proof {
                lemma_ints_push(r@, k);
            }
            r.push(k);
            k += 1;
            assert(ints(r@) =~= Seq::new(k as nat, |x: int| x));
        }
    }
    r
}

proof fn lemma_interesting_upto_contains(names: Seq<Seq<char>>, n: int, i: int)
    requires
        0 <= i < n <= names.len(),
        is_interesting(names[i]),
    ensures
        interesting_upto(names, n).contains(i),
    decreases n,
{
    if i == n - 1 {
        let c = interesting_upto(names, n);
        assert(c == interesting_upto(names, n - 1).push(n - 1));
        assert(c[c.len() - 1] == i);
    } else {
        lemma_interesting_upto_contains(names, n - 1, i);
        let p = interesting_upto(names, n - 1);
        let k = choose|k: int| 0 <= k < p.len() && p[k] == i;
        if is_interesting(names[n - 1]) {
            assert(interesting_upto(names, n)[k] == i);
        }
    }
}

/// Every header column named NAME, STATUS, READY, STATE, PHASE, TYPE, CLUSTER-IP or
/// EXTERNAL-IP (trimmed and in upper case) is kept: it is among the kept columns, its
/// name is in the table's header row, and its cell is in every row of the table.
pub proof fn law_listed_columns_kept(h: Seq<char>, i: int)
    requires
        0 <= i < col_names(h).len(),
        ({
            let n = col_names(h)[i];
            ||| n == "NAME"@
            ||| n == "STATUS"@
            ||| n == "READY"@
            ||| n == "STATE"@
            ||| n == "PHASE"@
            ||| n == "TYPE"@
            ||| n == "CLUSTER-IP"@
            ||| n == "EXTERNAL-IP"@
        }),
    ensures
        kept_columns(col_names(h)).contains(i),
        contains(
            join(kept_columns(col_names(h)).map_values(|k: int| col_names(h)[k]), seq!['\t']),
            col_names(h)[i],
        ),
        forall|l: Seq<char>|
            contains(
                #[trigger] table_row(h, kept_columns(col_names(h)), l),
                cell(h, col_starts(h), l, i),
            ),
{
    let names = col_names(h);
    lemma_interesting_upto_contains(names, names.len() as int, i);
    let keep = kept_columns(names);
    assert(keep == interesting_upto(names, names.len() as int));
    let j = choose|j: int| 0 <= j < keep.len() && keep[j] == i;
    let hdr = keep.map_values(|k: int| names[k]);
    assert(hdr[j] == names[i]);
    lemma_join_contains(hdr, seq!['\t'], j);
    assert forall|l: Seq<char>|
        contains(
            #[trigger] table_row(h, keep, l),
            cell(h, col_starts(h), l, i),
        ) by {
        let cells = keep.map_values(|k: int| cell(h, col_starts(h), l, k));
        assert(cells[j] == cell(h, col_starts(h), l, i));
        lemma_join_contains(cells, seq!['\t'], j);
    }
}

proof fn lemma_interesting_upto_empty(names: Seq<Seq<char>>, n: int)
    requires
        0 <= n <= names.len(),
        forall|i: int| 0 <= i < n ==> !is_interesting(#[trigger] names[i]),
    ensures
        interesting_upto(names, n).len() == 0,
    decreases n,
{
    if n > 0 {
        lemma_interesting_upto_empty(names, n - 1);
    }
}

/// Where no header column is NAME, STATUS, READY, STATE, PHASE, TYPE, CLUSTER-IP or
/// EXTERNAL-IP, the first three columns (or all, where there are fewer) are kept.
pub proof fn law_fallback_first_three(h: Seq<char>)
    requires
        forall|i: int|
            0 <= i < col_names(h).len() ==> !({
                let n = #[trigger] col_names(h)[i];
            ||| n == "NAME"@
            ||| n == "STATUS"@
            ||| n == "READY"@
            ||| n == "STATE"@
            ||| n == "PHASE"@
            ||| n == "TYPE"@
            ||| n == "CLUSTER-IP"@
            ||| n == "EXTERNAL-IP"@
            }),
    ensures
        kept_columns(col_names(h)) == Seq::new(
            if col_names(h).len() < 3 {
                col_names(h).len()
            } else {
                3
            },
            |i: int| i,
        ),
{
    let names = col_names(h);
    assert forall|i: int| 0 <= i < names.len() implies !is_interesting(#[trigger] names[i]) by {}
    lemma_interesting_upto_empty(names, names.len() as int);
}

/// In `kubectl get` output, the name of every listed header column appears in what the
/// filter returns.
pub proof fn law_listed_columns_in_result(output: Seq<char>, i: int)
    requires
        ({
            let ls = lines(output);
            first_nonblank(ls) < ls.len()
        }),
        ({
            let ls = lines(output);
            let h = ls[first_nonblank(ls)];
            0 <= i < col_names(h).len() && ({
            let n = col_names(h)[i];
            ||| n == "NAME"@
            ||| n == "STATUS"@
            ||| n == "READY"@
            ||| n == "STATE"@
            ||| n == "PHASE"@
            ||| n == "TYPE"@
            ||| n == "CLUSTER-IP"@
            ||| n == "EXTERNAL-IP"@
        })
        }),
    ensures
        contains(get_result(output), col_names(lines(output)[first_nonblank(lines(output))])[i]),
{
    let ls = lines(output);
    let hi = first_nonblank(ls);
    let h = ls[hi];
    law_listed_columns_kept(h, i);
    let names = col_names(h);
    let keep = kept_columns(names);
    let header_row = join(keep.map_values(|k: int| names[k]), seq!['\t']);
    let data = table_data(ls, hi);
    let rows = shown_rows(data).map_values(|l: Seq<char>| table_row(h, keep, l));
    let tail = if data.len() > 30 {
        seq!["[+"@ + decimal((data.len() - 30) as nat) + " more]"@]
    } else {
        seq![]
    };
    let all = seq![header_row] + rows + tail;
    assert(all[0] == header_row);
    assert(get_result(output) == join(all, seq!['\n']));
    lemma_join_contains(all, seq!['\n'], 0);
    lemma_contains_trans(get_result(output), header_row, names[i]);
}

/// Byte offsets where the columns start.
fn byte_starts_exec(h: &Vec<char>, cs: &Vec<usize>) -> (r: Vec<u128>)
    requires
        ints(cs@) == col_starts(h@),
    ensures
        r.len() == cs.len(),
        forall|i: int| 0 <= i < r.len() ==> #[trigger] r@[i] == byte_start(h@, col_starts(h@), i),
{
    proof {
        lemma_col_starts_bounds(h@, h@.len() as int);
    }
    let mut r: Vec<u128> = Vec::new();
    let mut i: usize = 0;
    while i < cs.len()
        invariant
            i <= cs.len(),
            ints(cs@) == col_starts(h@),
            forall|k: int| 0 <= k < cs.len() ==> 0 <= #[trigger] col_starts(h@)[k] < h.len(),
            r.len() == i,
            forall|k: int| 0 <= k < i ==> #[trigger] r@[k] == byte_start(h@, col_starts(h@), k),
        decreases cs.len() - i,
    {
        assert(ints(cs@)[i as int] == cs@[i as int] as int);
        let pre = slice_chars(h, 0, cs[i]);
        assert(pre@ =~= h@.take(cs@[i as int] as int));
        r.push(utf8_len_exec(&pre));
        i += 1;
    }
    r
}

/// The cell of column `i` of line `l`, or `None` where cutting it out would cut a
/// character apart.
fn cell_exec(h: &Vec<char>, cs: &Vec<usize>, bs: &Vec<u128>, l: &Vec<char>, i: usize) -> (r: Option<
    Vec<char>,
>)
    requires
        ints(cs@) == col_starts(h@),
        bs.len() == cs.len(),
        forall|k: int| 0 <= k < bs.len() ==> #[trigger] bs@[k] == byte_start(h@, col_starts(h@), k),
        i < cs.len(),
    ensures
        r is Some <==> cell_sliceable(h@, col_starts(h@), l@, i as int),
        r matches Some(c) ==> c@ == cell(h@, col_starts(h@), l@, i as int),
{
    let len = utf8_len_exec(l);
    let start = bs[i];
    if start >= len {
        return Some(Vec::new());
    }
    let end = if i + 1 < cs.len() && bs[i + 1] < len {
        proof {
            lemma_col_starts_bounds(h@, h@.len() as int);
            crate::text::lemma_utf8_len_strictly_grows(
                h@,
                col_starts(h@)[i as int],
                col_starts(h@)[i + 1],
            );
        }
        bs[i + 1]
    } else {
        len
    };
    let a = char_index_at_byte_exec(l, start);
    let b = char_index_at_byte_exec(l, end);
    match (a, b) {
        (Some(x), Some(y)) => {
            if x <= y {
                let part = slice_chars(l, x, y);
                Some(trim_chars(&part))
            } else {
                proof {
                    lemma_byte_index_order(l@, start as int, end as int);
                }
                Some(Vec::new())
            }
        },
        _ => None,
    }
}

proof fn lemma_byte_index_order(l: Seq<char>, a: int, b: int)
    requires
        a <= b,
        is_byte_boundary(l, a),
        is_byte_boundary(l, b),
    ensures
        char_index_at_byte(l, a) <= char_index_at_byte(l, b),
{
    let x = char_index_at_byte(l, a);
    let y = char_index_at_byte(l, b);
    if y < x {
        crate::text::lemma_utf8_len_strictly_grows(l, y, x);
    }
}


/// The kept cells of line `l`, separated by tabs, or `None` where one of them cannot
/// be cut out.
fn row_exec(h: &Vec<char>, cs: &Vec<usize>, bs: &Vec<u128>, keep: &Vec<usize>, l: &Vec<char>) -> (r:
    Option<Vec<char>>)
    requires
        ints(cs@) == col_starts(h@),
        bs.len() == cs.len(),
        forall|k: int| 0 <= k < bs.len() ==> #[trigger] bs@[k] == byte_start(h@, col_starts(h@), k),
        forall|k: int| 0 <= k < keep.len() ==> #[trigger] keep@[k] < cs.len(),
    ensures
        r is Some <==> forall|k: int|
            0 <= k < keep.len() ==> cell_sliceable(h@, col_starts(h@), l@, #[trigger] ints(keep@)[k]),
        r matches Some(row) ==> row@ == table_row(h@, ints(keep@), l@),
{
    let mut cells: Vec<Vec<char>> = Vec::new();
    let mut k: usize = 0;
    while k < keep.len()
        invariant
            k <= keep.len(),
            ints(cs@) == col_starts(h@),
            bs.len() == cs.len(),
            forall|j: int| 0 <= j < bs.len() ==> #[trigger] bs@[j] == byte_start(h@, col_starts(h@), j),
            forall|j: int| 0 <= j < keep.len() ==> #[trigger] keep@[j] < cs.len(),
            forall|j: int|
                0 <= j < k ==> cell_sliceable(h@, col_starts(h@), l@, #[trigger] ints(keep@)[j]),
            views(cells@) == ints(keep@).map_values(|i: int| cell(h@, col_starts(h@), l@, i)).take(
                k as int,
            ),
        decreases keep.len() - k,
    {
        assert(ints(keep@)[k as int] == keep@[k as int] as int);
        match cell_exec(h, cs, bs, l, keep[k]) {
            Some(c) => {
                let ghost old_cells = cells@;
                cells.push(c);
                proof {
                    lemma_views_push(old_cells, c);
                }
            },
            None => {
                return None;
            },
        }
        k += 1;
        assert(views(cells@) =~= ints(keep@).map_values(|i: int| cell(h@, col_starts(h@), l@, i)).take(
            k as int,
        ));
    }
    assert(ints(keep@).map_values(|i: int| cell(h@, col_starts(h@), l@, i)).take(keep.len() as int)
        =~= ints(keep@).map_values(|i: int| cell(h@, col_starts(h@), l@, i)));
    let tab = vec!['\t'];
    assert(tab@ =~= seq!['\t']);
    Some(join_chars(&cells, &tab))
}

/// The kept column names, separated by tabs.
fn header_row_exec(names: &Vec<Vec<char>>, keep: &Vec<usize>) -> (r: Vec<char>)
    requires
        forall|k: int| 0 <= k < keep.len() ==> #[trigger] keep@[k] < names.len(),
    ensures
        r@ == join(ints(keep@).map_values(|i: int| views(names@)[i]), seq!['\t']),
{
    let mut cells: Vec<Vec<char>> = Vec::new();
    let mut k: usize = 0;
    while k < keep.len()
        invariant
            k <= keep.len(),
            forall|j: int| 0 <= j < keep.len() ==> #[trigger] keep@[j] < names.len(),
            views(cells@) == ints(keep@).map_values(|i: int| views(names@)[i]).take(k as int),
        decreases keep.len() - k,
    {
        assert(ints(keep@)[k as int] == keep@[k as int] as int);
        let c = copy_chars(&names[keep[k]]);
        let ghost old_cells = cells@;
        cells.push(c);
        proof {
            lemma_views_push(old_cells, c);
        }
        k += 1;
        assert(views(cells@) =~= ints(keep@).map_values(|i: int| views(names@)[i]).take(k as int));
    }
    assert(ints(keep@).map_values(|i: int| views(names@)[i]).take(keep.len() as int)
        =~= ints(keep@).map_values(|i: int| views(names@)[i]));
    let tab = vec!['\t'];
    assert(tab@ =~= seq!['\t']);
    join_chars(&cells, &tab)
}

fn is_nonblank_exec(l: &Vec<char>) -> (r: bool)
    ensures
        r == (trim(l@).len() > 0),
{
    trim_chars(l).len() > 0
}

/// Keeps the interesting columns of a `kubectl get` table, and its first thirty rows;
/// `None` where a shown cell cannot be cut out of its line without cutting a character
/// apart.
pub fn try_filter_get(output: &str) -> (r: Option<String>)
    ensures
        r is Some <==> get_sliceable(output@),
        r matches Some(s) ==> s@ == get_result(output@),
{
    let ls = lines_of(output);
    if ls.len() == 0 {
        return Some(string_of(output));
    }
    let hi = first_nonblank_exec(&ls);
    if hi == ls.len() {
        return Some(string_of(output));
    }
    let h = &ls[hi];
    assert(views(ls@)[hi as int] == h@);
    let cs = col_starts_exec(h);
    if cs.len() == 0 {
        proof {
            assert(col_names(h@).len() == 0);
            assert(interesting_upto(col_names(h@), 0).len() == 0);
            assert(kept_columns(col_names(h@)).len() == 0);
        }
        return Some(string_of(output));
    }
    let names = col_names_exec(h, &cs);
    let keep = kept_columns_exec(&names);
    let bs = byte_starts_exec(h, &cs);
    let mut rest: Vec<Vec<char>> = Vec::new();
    let mut j: usize = hi + 1;
    while j < ls.len()
        invariant
            hi < j <= ls.len(),
            views(rest@) == views(ls@).subrange(hi + 1, j as int),
        decreases ls.len() - j,
    {
        let ghost old_rest = rest@;
        let c = copy_chars(&ls[j]);
        rest.push(c);
        proof {
            lemma_views_push(old_rest, c);
        }
        j += 1;
        assert(views(rest@) =~= views(ls@).subrange(hi + 1, j as int));
    }
    assert(views(rest@) =~= views(ls@).skip(hi + 1));
    let data = keep_lines(&rest, is_nonblank_exec, Ghost(|l: Seq<char>| trim(l).len() > 0));
    let ghost hs = h@;
    let ghost keep_s = ints(keep@);
    let ghost shown = shown_rows(views(data@));
    assert(views(data@) == table_data(views(ls@), hi as int));
    assert(keep_s == kept_columns(col_names(hs)));
    let mut out: Vec<Vec<char>> = Vec::new();
    let hrow = header_row_exec(&names, &keep);
    let ghost hrow_s = hrow@;
    out.push(hrow);
    let n = if data.len() > 30 {
        30
    } else {
        data.len()
    };
    let mut r: usize = 0;
    while r < n
        invariant
            r <= n <= data.len(),
            n == shown.len(),
            shown == shown_rows(views(data@)),
            views(data@) == table_data(views(ls@), hi as int),
            hs == h@,
            hs == views(ls@)[hi as int],
            (hi as int) == first_nonblank(views(ls@)),
            hi < ls.len(),
            views(ls@) == lines(output@),
            ls.len() > 0,
            forall|rr: int, k: int|
                0 <= rr < r && 0 <= k < keep_s.len() ==> cell_sliceable(
                    hs,
                    col_starts(hs),
                    #[trigger] shown[rr],
                    #[trigger] keep_s[k],
                ),
            keep_s == ints(keep@),
            keep_s == kept_columns(col_names(hs)),
            ints(cs@) == col_starts(hs),
            bs.len() == cs.len(),
            forall|k: int| 0 <= k < bs.len() ==> #[trigger] bs@[k] == byte_start(hs, col_starts(hs), k),
            forall|k: int| 0 <= k < keep.len() ==> #[trigger] keep@[k] < cs.len(),
            out.len() == r + 1,
            views(out@)[0] == hrow_s,
            hrow_s == join(ints(keep@).map_values(|i: int| views(names@)[i]), seq!['\t']),
            views(names@) == col_names(hs),
            views(out@).drop_first() == shown.map_values(|l: Seq<char>| table_row(hs, keep_s, l)).take(
                r as int,
            ),
        decreases n - r,
    {
        assert(shown[r as int] == data@[r as int]@);
        let row = match row_exec(h, &cs, &bs, &keep, &data[r]) {
            Some(row) => row,
            None => {
                proof {
                    let k = choose|k: int|
                        0 <= k < keep.len() && !cell_sliceable(
                            hs,
                            col_starts(hs),
                            data@[r as int]@,
                            #[trigger] ints(keep@)[k],
                        );
                    assert(keep_s[k] == ints(keep@)[k]);
                    assert(!cell_sliceable(hs, col_starts(hs), shown[r as int], keep_s[k]));
                }
                return None;
            },
        };
        let ghost old_out = out@;
        out.push(row);
        proof {
            lemma_views_push(old_out, row);
            assert(views(out@)[0] == views(old_out)[0]);
            assert(views(out@).drop_first() =~= shown.map_values(
                |l: Seq<char>| table_row(hs, keep_s, l),
            ).take(r + 1));
        }
        r += 1;
        assert forall|rr: int, k: int|
            0 <= rr < r && 0 <= k < keep_s.len() implies cell_sliceable(
            hs,
            col_starts(hs),
            #[trigger] shown[rr],
            #[trigger] keep_s[k],
        ) by {
            if rr == r - 1 {
                assert(keep_s[k] == ints(keep@)[k]);
            }
        }
    }
    if data.len() > 30 {
        let mut tail: Vec<char> = Vec::new();
        append_str(&mut tail, "[+");
        let num = decimal_chars(data.len() - 30);
        crate::text::append_chars(&mut tail, &num);
        append_str(&mut tail, " more]");
        let ghost old_out = out@;
        out.push(tail);
        proof {
            lemma_views_push(old_out, tail);
            assert(views(out@)[0] == views(old_out)[0]);
        }
    }
    proof {
        let names_s = col_names(hs);
        let header_row = join(keep_s.map_values(|i: int| names_s[i]), seq!['\t']);
        assert(views(names@) == names_s);
        assert(views(out@)[0] == header_row);
        let rows = shown.map_values(|l: Seq<char>| table_row(hs, keep_s, l));
        assert(rows.take(n as int) =~= rows);
        let tail_s = if views(data@).len() > 30 {
            seq!["[+"@ + decimal((views(data@).len() - 30) as nat) + " more]"@]
        } else {
            seq![]
        };
        assert(views(out@) =~= seq![header_row] + rows + tail_s);
    }
    Some(join_newline(&out))
}


/// Keeps the interesting columns of a `kubectl get` table, and its first thirty rows.
pub fn filter_get(output: &str) -> (r: String)
    requires
        get_sliceable(output@),
    ensures
        r@ == get_result(output@),
{
    match try_filter_get(output) {
        Some(s) => s,
        None => {
            proof {
                assert(false);
            }
            String::new()
        },
    }
}


/// Where `filter_describe` stands between two lines.
pub struct DescribeState {
    pub in_section: bool,
    pub in_annotations: bool,
    pub count: nat,
}

/// A line that starts one of the kept sections.
pub open spec fn is_describe_section(t: Seq<char>) -> bool {
    ||| starts_with(t, "Name:"@)
    ||| starts_with(t, "Status:"@)
    ||| starts_with(t, "Conditions:"@)
    ||| starts_with(t, "Events:"@)
}

/// The line is indented by a space or a tab.
pub open spec fn is_indented(l: Seq<char>) -> bool {
    starts_with_char(l, ' ') || starts_with_char(l, '\t')
}

/// One line of `kubectl describe` output: the next state and the lines it emits.
pub open spec fn describe_step(st: DescribeState, line: Seq<char>) -> (DescribeState, Seq<Seq<char>>) {
    let t = trim(line);
    if starts_with(t, "Annotations:"@) || starts_with(t, "Labels:"@) {
        (DescribeState { in_section: st.in_section, in_annotations: true, count: 0 }, seq![line])
    } else if st.in_annotations && is_indented(line) {
        let c = st.count + 1;
        (
            DescribeState { in_section: st.in_section, in_annotations: true, count: c },
            if c <= 5 {
                seq![line]
            } else if c == 6 {
                seq!["[6 annotations]"@]
            } else {
                seq![]
            },
        )
    } else {
        let is_section = is_describe_section(t);
        let in_section = if is_section {
            true
        } else if t.len() > 0 && !is_indented(line) {
            false
        } else {
            st.in_section
        };
        (
            DescribeState { in_section, in_annotations: false, count: st.count },
            if in_section {
                seq![line]
            } else {
                seq![]
            },
        )
    }
}

/// Inside an annotation or label block, the first five indented lines are kept, the
/// sixth becomes "[6 annotations]", and later ones are dropped; the block's count goes up
/// by one with each.
pub proof fn law_describe_annotation_cap(st: DescribeState, line: Seq<char>)
    requires
        st.in_annotations,
        starts_with_char(line, ' ') || starts_with_char(line, '\t'),
        !starts_with(trim(line), "Annotations:"@),
        !starts_with(trim(line), "Labels:"@),
    ensures
        describe_step(st, line).0.count == st.count + 1,
        describe_step(st, line).0.in_annotations,
        st.count < 5 ==> describe_step(st, line).1 == seq![line],
        st.count == 5 ==> describe_step(st, line).1 == seq!["[6 annotations]"@],
        st.count > 5 ==> describe_step(st, line).1.len() == 0,
{
}

/// `describe_step` over all of `ls`, from the state where no section is open.
pub open spec fn describe_run(ls: Seq<Seq<char>>) -> (DescribeState, Seq<Seq<char>>)
    decreases ls.len(),
{
    if ls.len() == 0 {
        (DescribeState { in_section: false, in_annotations: false, count: 0 }, seq![])
    } else {
        let prev = describe_run(ls.drop_last());
        let next = describe_step(prev.0, ls.last());
        (next.0, prev.1 + next.1)
    }
}

/// What `filter_describe` returns: the kept sections and at most five lines of each
/// annotation or label block; the output itself where nothing is kept.
pub open spec fn describe_result(output: Seq<char>) -> Seq<char> {
    let out = describe_run(lines(output)).1;
    if out.len() == 0 {
        output
    } else {
        join(out, seq!['\n'])
    }
}

proof fn lemma_describe_run_keeps(ls: Seq<Seq<char>>, k: int)
    requires
        0 <= k < ls.len(),
        !is_indented(ls[k]),
        ({
            let t = trim(ls[k]);
            ||| starts_with(t, "Annotations:"@)
            ||| starts_with(t, "Labels:"@)
            ||| is_describe_section(t)
        }),
    ensures
        describe_run(ls).1.contains(ls[k]),
    decreases ls.len(),
{
    let prev = describe_run(ls.drop_last());
    let next = describe_step(prev.0, ls.last());
    assert(describe_run(ls).1 == prev.1 + next.1);
    if k == ls.len() - 1 {
        assert(next.1 == seq![ls[k]]);
        assert((prev.1 + next.1)[prev.1.len() as int] == ls[k]);
    } else {
        assert(ls.drop_last()[k] == ls[k]);
        lemma_describe_run_keeps(ls.drop_last(), k);
        let m = choose|m: int| 0 <= m < prev.1.len() && prev.1[m] == ls[k];
        assert((prev.1 + next.1)[m] == ls[k]);
    }
}

/// Every unindented line of `kubectl describe` output whose trimmed text starts with
/// "Name:", "Status:", "Conditions:", "Events:", "Annotations:" or "Labels:" appears in
/// what the filter returns.
pub proof fn law_describe_keeps_headings(output: Seq<char>, k: int)
    requires
        0 <= k < lines(output).len(),
        !(starts_with_char(lines(output)[k], ' ') || starts_with_char(lines(output)[k], '\t')),
        ({
            let t = trim(lines(output)[k]);
            ||| starts_with(t, "Name:"@)
            ||| starts_with(t, "Status:"@)
            ||| starts_with(t, "Conditions:"@)
            ||| starts_with(t, "Events:"@)
            ||| starts_with(t, "Annotations:"@)
            ||| starts_with(t, "Labels:"@)
        }),
    ensures
        contains(describe_result(output), lines(output)[k]),
{
    let ls = lines(output);
    lemma_describe_run_keeps(ls, k);
    let out = describe_run(ls).1;
    let m = choose|m: int| 0 <= m < out.len() && out[m] == ls[k];
    lemma_join_contains(out, seq!['\n'], m);
}

fn is_indented_exec(l: &Vec<char>) -> (r: bool)
    ensures
        r == is_indented(l@),
{
    starts_with_char_exec(l, ' ') || starts_with_char_exec(l, '\t')
}

/// Keeps the name, status, condition and event sections of `kubectl describe` output.
pub fn filter_describe(output: &str) -> (r: String)
    ensures
        r@ == describe_result(output@),
{
    let ls = lines_of(output);
    let mut out: Vec<Vec<char>> = Vec::new();
    let mut in_section = false;
    let mut in_annotations = false;
    let mut count: usize = 0;
    let mut i: usize = 0;
    while i < ls.len()
        invariant
            i <= ls.len(),
            count <= i,
            describe_run(views(ls@).take(i as int)) == (
                DescribeState { in_section, in_annotations, count: count as nat },
                views(out@),
            ),
        decreases ls.len() - i,
    {
        let line = &ls[i];
        let ghost st = DescribeState { in_section, in_annotations, count: count as nat };
        let ghost old_out = out@;
        proof {
            assert(views(ls@).take(i + 1).drop_last() =~= views(ls@).take(i as int));
            assert(views(ls@).take(i + 1).last() == line@);
        }
        let t = trim_chars(line);
        if starts_with_str(&t, "Annotations:") || starts_with_str(&t, "Labels:") {
            in_annotations = true;
            count = 0;
            out.push(copy_chars(line));
            proof {
                lemma_views_push(old_out, out@.last());
            }
        } else if in_annotations && is_indented_exec(line) {
            count = count + 1;
            if count <= 5 {
                out.push(copy_chars(line));
                proof {
                    lemma_views_push(old_out, out@.last());
                }
            } else if count == 6 {
                let mut m: Vec<char> = Vec::new();
                append_str(&mut m, "[6 annotations]");
                out.push(m);
                proof {
                    lemma_views_push(old_out, out@.last());
                }
            } else {
                assert(views(out@) =~= views(old_out) + seq![]);
            }
        } else {
            in_annotations = false;
            let is_section = starts_with_str(&t, "Name:") || starts_with_str(&t, "Status:")
                || starts_with_str(&t, "Conditions:") || starts_with_str(&t, "Events:");
            if is_section {
                in_section = true;
            } else if t.len() > 0 && !is_indented_exec(line) {
                in_section = false;
            }
            if in_section || is_section {
                out.push(copy_chars(line));
                proof {
                    lemma_views_push(old_out, out@.last());
                }
            } else {
                assert(views(out@) =~= views(old_out) + seq![]);
            }
        }
        i += 1;
    }
    assert(views(ls@).take(ls.len() as int) =~= views(ls@));
    if out.len() == 0 {
        string_of(output)
    } else {
        join_newline(&out)
    }
}

/// What `rewrite_args` gives for `kubectl`: `--tail=200` added to `logs` without a tail.
pub open spec fn kubectl_rewrite(args: Seq<Seq<char>>) -> Seq<Seq<char>> {
    if arg_or_empty(args, 1) == "logs"@ && !(exists|i: int|
        0 <= i < args.len() && starts_with(#[trigger] args[i], "--tail"@)) {
        args.push("--tail=200"@)
    } else {
        args
    }
}

/// `kubectl logs` gets `--tail=200` added exactly where no argument starts with
/// `--tail`; every other command line is left as it is.
pub proof fn law_kubectl_rewrite_adds_tail(args: Seq<Seq<char>>)
    ensures
        (args.len() > 1 && args[1] == "logs"@ && forall|i: int|
            0 <= i < args.len() ==> !(#[trigger] args[i].len() >= 6 && args[i].take(6) == "--tail"@))
            ==> kubectl_rewrite(args) == args.push("--tail=200"@),
        !(args.len() > 1 && args[1] == "logs"@ && forall|i: int|
            0 <= i < args.len() ==> !(#[trigger] args[i].len() >= 6 && args[i].take(6) == "--tail"@))
            ==> kubectl_rewrite(args) == args,
{
    reveal_strlit("--tail");
    reveal_strlit("logs");
    assert("logs"@.len() == 4);
}

/// Rewriting a `kubectl` command line only ever appends to it, and rewriting the result
/// again changes nothing.
pub proof fn law_kubectl_rewrite_idempotent(args: Seq<Seq<char>>)
    ensures
        kubectl_rewrite(args).take(args.len() as int) == args,
        kubectl_rewrite(kubectl_rewrite(args)) == kubectl_rewrite(args),
{
    let r = kubectl_rewrite(args);
    if r != args {
        reveal_strlit("--tail=200");
        reveal_strlit("--tail");
        reveal_strlit("logs");
        assert(arg_or_empty(args, 1) == "logs"@);
        assert(arg_or_empty(args, 1).len() == 4);
        assert(args.len() > 1);
        assert(r[1] == args[1]);
        assert(r[args.len() as int] == "--tail=200"@);
        assert(r[args.len() as int].take(6) =~= "--tail"@);
        assert(starts_with(r[args.len() as int], "--tail"@));
        assert(arg_or_empty(r, 1) == arg_or_empty(args, 1));
    }
    assert(r.take(args.len() as int) =~= args);
}

/// The line budget for summarizing `n` lines of logs: a third, from 20 up to 200.
pub open spec fn logs_budget(n: nat) -> nat {
    let third = n / 3;
    if third < 20 {
        20
    } else if third > 200 {
        200
    } else {
        third
    }
}

/// The line budget for summarizing logs is never below 20 nor above 200.
pub proof fn law_logs_budget_bounds(n: nat)
    ensures
        20 <= logs_budget(n) <= 200,
        20 <= n / 3 <= 200 ==> logs_budget(n) == n / 3,
{
}

/// What the handler does with `kubectl` output: filters it itself, or hands logs to a
/// summarizer with a line budget.
pub enum KubectlFiltered {
    Done(String),
    SummarizeLogs { budget: usize },
}

/// The lines that `kubectl logs` output leaves the summarizer, or none where it is empty.
pub open spec fn logs_plan(output: Seq<char>) -> Option<nat> {
    if lines(output).len() == 0 {
        None
    } else {
        Some(logs_budget(lines(output).len()))
    }
}

/// Plans the filtering of `kubectl logs` output: empty output stays as it is, other
/// output goes to the summarizer with `logs_budget` lines.
pub fn filter_logs(output: &str) -> (r: KubectlFiltered)
    ensures
        match r {
            KubectlFiltered::Done(s) => logs_plan(output@) is None && s@ == output@,
            KubectlFiltered::SummarizeLogs { budget } => logs_plan(output@) == Some(budget as nat),
        },
{
    let ls = lines_of(output);
    let n = ls.len();
    if n == 0 {
        return KubectlFiltered::Done(string_of(output));
    }
    let third = n / 3;
    let budget = if third < 20 {
        20
    } else if third > 200 {
        200
    } else {
        third
    };
    KubectlFiltered::SummarizeLogs { budget }
}

/// What the handler makes of the output of subcommand `sub`, other than `logs`.
pub open spec fn kubectl_result(output: Seq<char>, sub: Seq<char>) -> Seq<char> {
    if sub == "get"@ {
        get_result(output)
    } else if sub == "describe"@ {
        describe_result(output)
    } else if sub == "apply"@ || sub == "delete"@ || sub == "rollout"@ {
        changes_result(output)
    } else {
        output
    }
}

impl KubectlHandler {
    /// Adds `--tail=200` to `kubectl logs` where the user gave no `--tail`.
    pub fn rewrite_args(&self, args: &[String]) -> (r: Vec<String>)
        ensures
            arg_views(r@) == kubectl_rewrite(arg_views(args@)),
    {
        let subcmd = arg_chars(args, 1);
        let mut has_tail = false;
        let mut i: usize = 0;
        while i < args.len()
            invariant
                i <= args.len(),
                has_tail == exists|k: int|
                    0 <= k < i && starts_with(#[trigger] arg_views(args@)[k], "--tail"@),
            decreases args.len() - i,
        {
            let a = to_chars(args[i].as_str());
            assert(a@ == arg_views(args@)[i as int]);
            if starts_with_str(&a, "--tail") {
                has_tail = true;
            }
            i += 1;
        }
        let mut out = copy_args(args);
        if eq_str(&subcmd, "logs") && !has_tail {
            let ghost old_out = out@;
            let t = string_of("--tail=200");
            out.push(t);
            proof {
                lemma_arg_views_push(old_out, t);
            }
        }
        out
    }

    /// Filters `kubectl` output by its subcommand; `logs` output is handed back for
    /// summarizing.
    pub fn filter(&self, output: &str, args: &[String]) -> (r: KubectlFiltered)
        requires
            arg_or_empty(arg_views(args@), 1) == "get"@ ==> get_sliceable(output@),
        ensures
            arg_or_empty(arg_views(args@), 1) == "logs"@ ==> match r {
                KubectlFiltered::Done(s) => logs_plan(output@) is None && s@ == output@,
                KubectlFiltered::SummarizeLogs { budget } => logs_plan(output@) == Some(
                    budget as nat,
                ),
            },
            arg_or_empty(arg_views(args@), 1) != "logs"@ ==> (r matches KubectlFiltered::Done(s)
                && s@ == kubectl_result(output@, arg_or_empty(arg_views(args@), 1))),
    {
        let sub = arg_chars(args, 1);
        if eq_str(&sub, "get") {
            proof {
                reveal_strlit("get");
                reveal_strlit("logs");
                assert("get"@.len() != "logs"@.len());
                assert(sub@ != "logs"@);
            }
            KubectlFiltered::Done(filter_get(output))
        } else if eq_str(&sub, "logs") {
            filter_logs(output)
        } else if eq_str(&sub, "describe") {
            KubectlFiltered::Done(filter_describe(output))
        } else if eq_str(&sub, "apply") || eq_str(&sub, "delete") || eq_str(&sub, "rollout") {
            KubectlFiltered::Done(filter_changes(output))
        } else {
            KubectlFiltered::Done(string_of(output))
        }
    }
}

} // verus!
