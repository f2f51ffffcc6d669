use vstd::prelude::*;

use crate::json_schema::{schema_of_text, schema_text};
use crate::text::{
    from_chars, lemma_utf8_len_trim, string_of, to_chars, trim, trim_chars, utf8_len, utf8_len_exec,
};

verus! {

/// Output filter for JSON.
pub struct JsonHandler;

/// The JSON filter, given the schema rendered from the trimmed output (`None` where it
/// is not JSON or rendering fails): the schema where it is shorter in bytes, else the
/// output.
pub open spec fn json_result_with(output: Seq<char>, schema: Option<Seq<char>>) -> Seq<char> {
    match schema {
        Some(s) => if utf8_len(s) < utf8_len(trim(output)) {
            s
        } else {
            output
        },
        None => output,
    }
}

/// The JSON filter never makes its output longer, in bytes, whatever schema it is given,
/// and it shows the schema exactly where it is strictly shorter than the trimmed output.
pub proof fn law_json_never_grows(output: Seq<char>, schema: Option<Seq<char>>)
    ensures
        utf8_len(json_result_with(output, schema)) <= utf8_len(output),
        schema matches Some(t) ==> (json_result_with(output, schema) == t <==> utf8_len(t)
            < utf8_len(trim(output))) || t == output,
{
    lemma_utf8_len_trim(output);
}

/// What `JsonHandler::filter` returns.
pub open spec fn json_result(output: Seq<char>) -> Seq<char> {
    json_result_with(
        output,
        match schema_text(trim(output)) {
            Some(Some(s)) => Some(s),
            _ => None,
        },
    )
}

/// The JSON filter, given the schema rendered from the trimmed output.
pub fn filter_with_schema(output: &str, schema: Option<&str>) -> (r: String)
    ensures
        r@ == json_result_with(
            output@,
            match schema {
                Some(s) => Some(s@),
                None => None,
            },
        ),
{
    if let Some(s) = schema {
        let oc = to_chars(output);
        let t = trim_chars(&oc);
        let sc = to_chars(s);
        if utf8_len_exec(&sc) < utf8_len_exec(&t) {
            return string_of(s);
        }
    }
    string_of(output)
}

impl JsonHandler {
    /// Replaces JSON by its schema where that is shorter.
    pub fn filter(&self, output: &str, _args: &[String]) -> (r: String)
        ensures
            r@ == json_result(output@),
    {
        let oc = to_chars(output);
        let t = trim_chars(&oc);
        let ts = from_chars(&t);
        match schema_of_text(ts.as_str()) {
            Some(Some(s)) => filter_with_schema(output, Some(s.as_str())),
            _ => filter_with_schema(output, None),
        }
    }
}

} // verus!
