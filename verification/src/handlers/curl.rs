use vstd::prelude::*;

use crate::json_schema::{schema_of_text, schema_text};
use crate::text::{
    append_chars, append_str, copy_chars, decimal, decimal_chars, find, find_chars, from_chars,
    join, join_newline, lemma_find, lemma_utf8_len_skip, lemma_utf8_len_trim, contains, ends_with,
    lemma_join_contains, lemma_join_ends_with, lemma_views_push, lines, lines_of, map_lines, matches_at,
    starts_with, starts_with_char, starts_with_str, string_of, to_chars, trim, trim_chars,
    truncate_chars, truncate_exec, utf8_len, utf8_len_exec, views,
};

verus! {

/// Output filter for `curl`.
pub struct CurlHandler;

/// The most lines shown.
pub const MAX_LINES: usize = 30;

/// The most characters shown of a line.
pub const MAX_LINE_LEN: usize = 200;

/// The response body in curl output: after the first blank line where the output starts
/// with HTTP headers, else all of it where it looks like JSON.
pub open spec fn body_of(output: Seq<char>) -> Option<Seq<char>> {
    let headers = starts_with(output, "HTTP/"@);
    if headers && find(output, "\r\n\r\n"@) is Some {
        Some(output.skip(find(output, "\r\n\r\n"@)->0 + 4))
    } else if headers && find(output, "\n\n"@) is Some {
        Some(output.skip(find(output, "\n\n"@)->0 + 2))
    } else if starts_with_char(trim(output), '{') || starts_with_char(trim(output), '[') {
        Some(output)
    } else {
        None
    }
}

/// The body of curl output that starts with "HTTP/" is what follows the first blank
/// line (`\r\n\r\n`, else `\n\n`); output without headers is its own body where its
/// trimmed text starts with `{` or `[`, and has none otherwise.
pub proof fn law_body_of(output: Seq<char>, k: int)
    ensures
        (starts_with(output, "HTTP/"@) && matches_at(output, "\r\n\r\n"@, k) && forall|j: int|
            0 <= j < k ==> !matches_at(output, "\r\n\r\n"@, j)) ==> body_of(output) == Some(
            output.skip(k + 4),
        ),
        (starts_with(output, "HTTP/"@) && !contains(output, "\r\n\r\n"@) && matches_at(
            output,
            "\n\n"@,
            k,
        ) && forall|j: int| 0 <= j < k ==> !matches_at(output, "\n\n"@, j)) ==> body_of(output)
            == Some(output.skip(k + 2)),
        !starts_with(output, "HTTP/"@) ==> body_of(output) == if trim(output).len() > 0 && (trim(
            output,
        )[0] == '{' || trim(output)[0] == '[') {
            Some(output)
        } else {
            None
        },
{
    lemma_find(output, "\r\n\r\n"@);
    lemma_find(output, "\n\n"@);
    reveal_strlit("\r\n\r\n");
    reveal_strlit("\n\n");
    if starts_with(output, "HTTP/"@) && matches_at(output, "\r\n\r\n"@, k) && forall|j: int|
        0 <= j < k ==> !matches_at(output, "\r\n\r\n"@, j) {
        let f = find(output, "\r\n\r\n"@)->0;
        assert(contains(output, "\r\n\r\n"@));
        if f < k {
            assert(!matches_at(output, "\r\n\r\n"@, f));
        }
        if k < f {
            assert(!matches_at(output, "\r\n\r\n"@, k));
        }
    }
    if starts_with(output, "HTTP/"@) && !contains(output, "\r\n\r\n"@) && matches_at(
        output,
        "\n\n"@,
        k,
    ) && forall|j: int| 0 <= j < k ==> !matches_at(output, "\n\n"@, j) {
        let f = find(output, "\n\n"@)->0;
        assert(contains(output, "\n\n"@));
        if f < k {
            assert(!matches_at(output, "\n\n"@, f));
        }
        if k < f {
            assert(!matches_at(output, "\n\n"@, k));
        }
    }
}

/// Cuts a line to `max` characters, marking a cut with `…`.
pub fn truncate_line(line: &str, max: usize) -> (r: String)
    ensures
        r@ == truncate_chars(line@, max as nat),
{
    let c = to_chars(line);
    let t = truncate_exec(&c, max);
    from_chars(&t)
}

/// The response body of curl output, if it has one.
pub fn extract_body(output: &str) -> (r: Option<&str>)
    ensures
        r matches Some(b) ==> body_of(output@) == Some(b@),
        r is None ==> body_of(output@) is None,
{
    let c = to_chars(output);
    let n = output.unicode_len();
    if starts_with_str(&c, "HTTP/") {
        let crlf = to_chars("\r\n\r\n");
        proof {
            lemma_find(c@, crlf@);
            reveal_strlit("\r\n\r\n");
        }
        if let Some(p) = find_chars(&c, &crlf) {
            assert(matches_at(c@, crlf@, p as int));
            return Some(output.substring_char(p + 4, n));
        }
        let lf = to_chars("\n\n");
        proof {
            lemma_find(c@, lf@);
            reveal_strlit("\n\n");
        }
        if let Some(p) = find_chars(&c, &lf) {
            assert(matches_at(c@, lf@, p as int));
            return Some(output.substring_char(p + 2, n));
        }
    }
    let b = trim_chars(&c);
    if crate::text::starts_with_char_exec(&b, '{') || crate::text::starts_with_char_exec(&b, '[') {
        assert(output@.subrange(0, n as int) =~= output@);
        Some(output.substring_char(0, n))
    } else {
        None
    }
}

/// Plain curl output, each line cut to 200 characters, at most 30 lines and a count of
/// the rest.
pub open spec fn plain_result(output: Seq<char>) -> Seq<char> {
    let ts = lines(output).map_values(|l: Seq<char>| truncate_chars(l, MAX_LINE_LEN as nat));
    if ts.len() <= MAX_LINES {
        join(ts, seq!['\n'])
    } else {
        join(
            ts.take(MAX_LINES as int) + seq![
                "[+"@ + decimal((ts.len() - MAX_LINES) as nat) + " more lines]"@,
            ],
            seq!['\n'],
        )
    }
}

/// Plain curl output shows each of its first 30 lines cut to 200 characters; where it has
/// more lines, it ends with a line counting the rest.
pub proof fn law_plain_caps(output: Seq<char>, k: int)
    ensures
        0 <= k < lines(output).len() && k < 30 ==> contains(
            plain_result(output),
            truncate_chars(lines(output)[k], 200),
        ),
        lines(output).len() > 30 ==> ends_with(
            plain_result(output),
            "[+"@ + decimal((lines(output).len() - 30) as nat) + " more lines]"@,
        ),
{
    let ls = lines(output);
    let ts = ls.map_values(|l: Seq<char>| truncate_chars(l, MAX_LINE_LEN as nat));
    if ts.len() <= 30 {
        if 0 <= k < ls.len() {
            lemma_join_contains(ts, seq!['\n'], k);
        }
    } else {
        let all = ts.take(30) + seq!["[+"@ + decimal((ts.len() - 30) as nat) + " more lines]"@];
        assert(plain_result(output) == join(all, seq!['\n']));
        lemma_join_ends_with(all, seq!['\n']);
        if 0 <= k < 30 {
            assert(all[k] == ts[k]);
            lemma_join_contains(all, seq!['\n'], k);
        }
    }
}

/// What the curl filter returns, given the schema rendered from the body (`None` where
/// there is no body or it is not JSON): the schema where it is shorter in bytes than
/// the body, else the plain output.
pub open spec fn curl_result_with(output: Seq<char>, schema: Option<Seq<char>>) -> Seq<char> {
    match (body_of(trim(output)), schema) {
        (Some(b), Some(s)) => if utf8_len(s) < utf8_len(b) {
            s
        } else {
            plain_result(output)
        },
        _ => plain_result(output),
    }
}

/// The curl filter shows a schema only where it is shorter, in bytes, than the output.
pub proof fn law_curl_schema_shorter(output: Seq<char>, schema: Option<Seq<char>>)
    ensures
        curl_result_with(output, schema) == plain_result(output) || utf8_len(
            curl_result_with(output, schema),
        ) < utf8_len(output),
{
    let t = trim(output);
    lemma_utf8_len_trim(output);
    if let Some(b) = body_of(t) {
        lemma_find(t, "\r\n\r\n"@);
        lemma_find(t, "\n\n"@);
        if starts_with(t, "HTTP/"@) && find(t, "\r\n\r\n"@) is Some {
            let k = find(t, "\r\n\r\n"@)->0;
            reveal_strlit("\r\n\r\n");
            lemma_utf8_len_skip(t, k + 4);
        } else if starts_with(t, "HTTP/"@) && find(t, "\n\n"@) is Some {
            let k = find(t, "\n\n"@)->0;
            reveal_strlit("\n\n");
            lemma_utf8_len_skip(t, k + 2);
        }
        assert(utf8_len(b) <= utf8_len(t));
    }
}

/// The schema text that the curl filter compares with the body: the rendered schema,
/// empty where rendering fails; `None` where there is no JSON body.
pub open spec fn curl_schema(output: Seq<char>) -> Option<Seq<char>> {
    match body_of(trim(output)) {
        Some(b) => match schema_text(b) {
            Some(Some(s)) => Some(s),
            Some(None) => Some(seq![]),
            None => None,
        },
        None => None,
    }
}

/// What `CurlHandler::filter` returns.
pub open spec fn curl_result(output: Seq<char>) -> Seq<char> {
    curl_result_with(output, curl_schema(output))
}

fn truncate_200(l: &Vec<char>) -> (r: Vec<char>)
    ensures
        r@ == truncate_chars(l@, MAX_LINE_LEN as nat),
{
    truncate_exec(l, MAX_LINE_LEN)
}

/// Cuts plain curl output to at most 30 lines of at most 200 characters.
pub fn plain_output(output: &str) -> (r: String)
    ensures
        r@ == plain_result(output@),
{
    let ls = lines_of(output);
    let ts = map_lines(
        &ls,
        truncate_200,
        Ghost(|l: Seq<char>| truncate_chars(l, MAX_LINE_LEN as nat)),
    );
    let ghost tv = views(ts@);
    assert(tv.len() == ts.len());
    if ts.len() <= MAX_LINES {
        return join_newline(&ts);
    }
    let mut out: Vec<Vec<char>> = Vec::new();
    let mut i: usize = 0;
    while i < MAX_LINES
        invariant
            i <= MAX_LINES < ts.len(),
            tv == views(ts@),
            views(out@) == tv.take(i as int),
        decreases MAX_LINES - i,
    {
        let ghost old = out@;
        let c = copy_chars(&ts[i]);
        out.push(c);
        proof {
            lemma_views_push(old, c);
            assert(views(out@) =~= tv.take(i + 1));
        }
        i += 1;
    }
    let mut marker: Vec<char> = Vec::new();
    append_str(&mut marker, "[+");
    let d = decimal_chars(ts.len() - MAX_LINES);
    append_chars(&mut marker, &d);
    append_str(&mut marker, " more lines]");
    let ghost old = out@;
    out.push(marker);
    proof {
        lemma_views_push(old, marker);
        assert(views(out@) =~= tv.take(MAX_LINES as int) + seq![
            "[+"@ + decimal((tv.len() - MAX_LINES) as nat) + " more lines]"@,
        ]);
    }
    join_newline(&out)
}

/// The curl filter, given the schema rendered from the body: the schema where it is
/// shorter than the body, else the plain output.
pub fn filter_with_schema(output: &str, schema: Option<&str>) -> (r: String)
    ensures
        r@ == curl_result_with(
            output@,
            match schema {
                Some(s) => Some(s@),
                None => None,
            },
        ),
{
    let oc = to_chars(output);
    let t = trim_chars(&oc);
    let ts = from_chars(&t);
    if let (Some(b), Some(s)) = (extract_body(ts.as_str()), schema) {
        let bc = to_chars(b);
        let sc = to_chars(s);
        if utf8_len_exec(&sc) < utf8_len_exec(&bc) {
            return string_of(s);
        }
    }
    plain_output(output)
}

impl CurlHandler {
    /// Replaces a JSON body by its schema where that is shorter; else cuts long lines and
    /// long output.
    pub fn filter(&self, output: &str, _args: &[String]) -> (r: String)
        ensures
            r@ == curl_result(output@),
    {
        let oc = to_chars(output);
        let t = trim_chars(&oc);
        let ts = from_chars(&t);
        let schema: Option<String> = match extract_body(ts.as_str()) {
            Some(b) => match schema_of_text(b) {
                Some(Some(s)) => Some(s),
                Some(None) => Some(String::new()),
                None => None,
            },
            None => None,
        };
        match schema {
            Some(s) => filter_with_schema(output, Some(s.as_str())),
            None => filter_with_schema(output, None),
        }
    }
}

} // verus!
