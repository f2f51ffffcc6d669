use vstd::prelude::*;

use crate::text::{append_chars, append_str, decimal, decimal_chars, from_chars, to_chars};

verus! {

#[verifier::external_type_specification]
#[verifier::external_body]
pub struct ExJsonValue(serde_json::Value);

/// A JSON document, holding of numbers only whether they are integers.
pub enum JsonValue {
    Null,
    Bool(bool),
    Number { integral: bool },
    Str(String),
    Array(Vec<JsonValue>),
    Object(Vec<(String, JsonValue)>),
}

/// The mathematical form of a JSON document.
pub enum JsonV {
    Null,
    Bool(bool),
    Number { integral: bool },
    Str(Seq<char>),
    Array(Seq<JsonV>),
    Object(Seq<(Seq<char>, JsonV)>),
}

/// A schema: the type names of a document's values, in the document's shape.
pub enum Schema {
    Name(String),
    List(Vec<Schema>),
    Fields(Vec<(String, Schema)>),
}

/// The mathematical form of a schema.
pub enum SchemaV {
    Name(Seq<char>),
    List(Seq<SchemaV>),
    Fields(Seq<(Seq<char>, SchemaV)>),
}

impl JsonValue {
    pub open spec fn view(&self) -> JsonV
        decreases self,
    {
        match self {
            JsonValue::Null => JsonV::Null,
            JsonValue::Bool(b) => JsonV::Bool(*b),
            JsonValue::Number { integral } => JsonV::Number { integral: *integral },
            JsonValue::Str(s) => JsonV::Str(s@),
            JsonValue::Array(items) => JsonV::Array(
                Seq::new(
                    items@.len(),
                    |i: int|
                        if 0 <= i < items@.len() {
                            items@[i].view()
                        } else {
                            JsonV::Null
                        },
                ),
            ),
            JsonValue::Object(fields) => JsonV::Object(
                Seq::new(
                    fields@.len(),
                    |i: int|
                        if 0 <= i < fields@.len() {
                            (fields@[i].0@, fields@[i].1.view())
                        } else {
                            (seq![], JsonV::Null)
                        },
                ),
            ),
        }
    }
}

impl Schema {
    pub open spec fn view(&self) -> SchemaV
        decreases self,
    {
        match self {
            Schema::Name(s) => SchemaV::Name(s@),
            Schema::List(items) => SchemaV::List(
                Seq::new(
                    items@.len(),
                    |i: int|
                        if 0 <= i < items@.len() {
                            items@[i].view()
                        } else {
                            SchemaV::List(seq![])
                        },
                ),
            ),
            Schema::Fields(fields) => SchemaV::Fields(
                Seq::new(
                    fields@.len(),
                    |i: int|
                        if 0 <= i < fields@.len() {
                            (fields@[i].0@, fields@[i].1.view())
                        } else {
                            (seq![], SchemaV::List(seq![]))
                        },
                ),
            ),
        }
    }
}

/// The schema of a JSON document: each scalar becomes its type name; an array its
/// first element's schema and its length; an object the schemas of its fields.
pub open spec fn schema_of(v: JsonV) -> SchemaV
    decreases v,
{
    match v {
        JsonV::Null => SchemaV::Name("null"@),
        JsonV::Bool(_) => SchemaV::Name("bool"@),
        JsonV::Number { integral } => SchemaV::Name(
            if integral {
                "int"@
            } else {
                "float"@
            },
        ),
        JsonV::Str(_) => SchemaV::Name("string"@),
        JsonV::Array(items) => if items.len() == 0 {
            SchemaV::List(seq![])
        } else {
            SchemaV::List(
                seq![
                    schema_of(items[0]),
                    SchemaV::Name("["@ + decimal(items.len()) + " items total]"@),
                ],
            )
        },
        JsonV::Object(fields) => SchemaV::Fields(
            Seq::new(
                fields.len(),
                |i: int|
                    if 0 <= i < fields.len() {
                        (fields[i].0, schema_of(fields[i].1))
                    } else {
                        (seq![], SchemaV::List(seq![]))
                    },
            ),
        ),
    }
}

/// A document's schema names `null`, `bool`, `int`, `float` and `string` values by
/// those words; a non-empty array becomes its first item's schema and
/// `[N items total]`; an object keeps its keys, in order, each with its value's schema.
pub proof fn law_schema_shape(v: JsonV)
    ensures
        v is Null ==> schema_of(v) == SchemaV::Name("null"@),
        v is Bool ==> schema_of(v) == SchemaV::Name("bool"@),
        v matches JsonV::Number { integral } ==> schema_of(v) == SchemaV::Name(
            if integral {
                "int"@
            } else {
                "float"@
            },
        ),
        v is Str ==> schema_of(v) == SchemaV::Name("string"@),
        v matches JsonV::Array(items) ==> (items.len() == 0 ==> schema_of(v) == SchemaV::List(
            seq![],
        )) && (items.len() > 0 ==> schema_of(v) == SchemaV::List(
            seq![schema_of(items[0]), SchemaV::Name("["@ + decimal(items.len()) + " items total]"@)],
        )),
        v matches JsonV::Object(fields) ==> schema_of(v) matches SchemaV::Fields(gs) && gs.len()
            == fields.len() && forall|i: int|
            0 <= i < fields.len() ==> #[trigger] gs[i] == (fields[i].0, schema_of(fields[i].1)),
{
}

fn name_of(s: &str) -> (r: Schema)
    ensures
        r.view() == SchemaV::Name(s@),
{
    Schema::Name(crate::text::string_of(s))
}

/// The schema of a JSON document.
pub fn json_to_schema(v: &JsonValue) -> (r: Schema)
    ensures
        r.view() == schema_of(v.view()),
    decreases v,
{
    match v {
        JsonValue::Null => name_of("null"),
        JsonValue::Bool(_) => name_of("bool"),
        JsonValue::Number { integral } => if *integral {
            name_of("int")
        } else {
            name_of("float")
        },
        JsonValue::Str(_) => name_of("string"),
        JsonValue::Array(items) => {
            if items.len() == 0 {
                let r = Schema::List(Vec::new());
                assert(v.view() is Array);
                assert(v.view()->Array_0.len() == 0);
                assert(schema_of(v.view()) == SchemaV::List(seq![]));
                assert(r.view() is List);
                assert(r.view()->List_0 =~= Seq::<SchemaV>::empty());
                assert(r.view() =~~= schema_of(v.view()));
                r
            } else {
                let first = json_to_schema(&items[0]);
                let ghost first_v = first.view();
                let mut total: Vec<char> = Vec::new();
                append_str(&mut total, "[");
                let d = decimal_chars(items.len());
                append_chars(&mut total, &d);
                append_str(&mut total, " items total]");
                let total_s = from_chars(&total);
                let mut list: Vec<Schema> = Vec::new();
                list.push(first);
                list.push(Schema::Name(total_s));
                assert(list@.len() == 2);
                assert(list@[0].view() == first_v);
                assert(list@[1].view() == SchemaV::Name(total@));
                let r = Schema::List(list);
                proof {
                    assert(v.view()->Array_0[0] == items@[0].view());
                    assert(v.view()->Array_0.len() == items.len());
                    let sv = SchemaV::List(
                        seq![
                            schema_of(items@[0].view()),
                            SchemaV::Name("["@ + decimal(items.len() as nat) + " items total]"@),
                        ],
                    );
                    assert(schema_of(v.view()) == sv);
                    assert(r.view()->List_0.len() == 2);
                    assert(r.view()->List_0[0] == first_v);
                    assert(r.view()->List_0 =~= sv->List_0);
                }
                r
            }
        },
        JsonValue::Object(fields) => {
            let mut out: Vec<(String, Schema)> = Vec::new();
            let mut i: usize = 0;
            while i < fields.len()
                invariant
                    i <= fields.len(),
                    *v == JsonValue::Object(*fields),
                    out.len() == i,
                    forall|k: int|
                        0 <= k < i ==> (#[trigger] out@[k]).0@ == fields@[k].0@ && out@[k].1.view()
                            == schema_of(fields@[k].1.view()),
                decreases fields.len() - i,
            {
                proof {
                    assert(decreases_to!(*v => (*v)->Object_0));
                    assert((*v)->Object_0 == *fields);
                    assert(decreases_to!(*fields => fields@));
                    assert(decreases_to!(fields@ => fields@[i as int]));
                    assert(decreases_to!(fields@[i as int] => fields@[i as int].1));
                }
                let s = json_to_schema(&fields[i].1);
                let key = fields[i].0.clone();
                out.push((key, s));
                i += 1;
            }
            let r = Schema::Fields(out);
            proof {
                let fv = v.view()->Object_0;
                assert(fv.len() == fields.len());
                assert forall|k: int| 0 <= k < fields.len() implies fv[k] == (
                    fields@[k].0@,
                    fields@[k].1.view(),
                ) by {}
                assert(r.view()->Fields_0 =~= schema_of(v.view())->Fields_0);
            }
            r
        },
    }
}


/// What `serde_json::from_str::<serde_json::Value>` gives for a text, in mathematical
/// form: the document, or `None` where the text is not JSON.
pub uninterp spec fn parsed_json(text: Seq<char>) -> Option<JsonV>;

/// What `serde_json::to_string_pretty` gives for the JSON value that holds a schema: the
/// pretty-printed text, or `None` where serializing fails.
pub uninterp spec fn pretty_schema(s: SchemaV) -> Option<Seq<char>>;

/// Moves a parsed `serde_json::Value` into a `JsonValue`, variant for variant; of a
/// number it keeps whether it is an integer.
#[verifier::external_body]
fn json_from_serde(v: serde_json::Value) -> JsonValue {
    match v {
        serde_json::Value::Null => JsonValue::Null,
        serde_json::Value::Bool(b) => JsonValue::Bool(b),
        serde_json::Value::Number(n) => JsonValue::Number { integral: n.is_i64() || n.is_u64() },
        serde_json::Value::String(s) => JsonValue::Str(s),
        serde_json::Value::Array(a) => JsonValue::Array(a.into_iter().map(json_from_serde).collect()),
        serde_json::Value::Object(m) => JsonValue::Object(
            m.into_iter().map(|(k, x)| (k, json_from_serde(x))).collect(),
        ),
    }
}

/// Moves a schema into a `serde_json::Value`: names become strings, lists arrays and
/// fields objects.
#[verifier::external_body]
fn schema_to_serde(s: &Schema) -> serde_json::Value {
    match s {
        Schema::Name(n) => serde_json::Value::String(n.clone()),
        Schema::List(items) => serde_json::Value::Array(items.iter().map(schema_to_serde).collect()),
        Schema::Fields(fields) => serde_json::Value::Object(
            fields.iter().map(|(k, x)| (k.clone(), schema_to_serde(x))).collect(),
        ),
    }
}

/// Calls `serde_json::from_str::<serde_json::Value>`; claims only that the result is
/// `parsed_json` of the text.
#[verifier::external_body]
pub(crate) fn parse_json(text: &str) -> (r: Option<JsonValue>)
    ensures
        r matches Some(v) ==> parsed_json(text@) == Some(v.view()),
        r is None ==> parsed_json(text@) is None,
{
    match serde_json::from_str::<serde_json::Value>(text) {
        Ok(v) => Some(json_from_serde(v)),
        Err(_) => None,
    }
}

/// Calls `serde_json::to_string_pretty` on the schema; claims only that the result is
/// `pretty_schema` of the schema.
#[verifier::external_body]
pub(crate) fn render_schema(s: &Schema) -> (r: Option<String>)
    ensures
        r matches Some(t) ==> pretty_schema(s.view()) == Some(t@),
        r is None ==> pretty_schema(s.view()) is None,
{
    serde_json::to_string_pretty(&schema_to_serde(s)).ok()
}

/// The pretty-printed schema of a JSON text, where the text is JSON.
pub open spec fn schema_text(text: Seq<char>) -> Option<Option<Seq<char>>> {
    match parsed_json(text) {
        Some(v) => Some(pretty_schema(schema_of(v))),
        None => None,
    }
}

/// Parses a JSON text and renders its schema: `None` where the text is not JSON, else
/// the rendered schema, itself `None` where rendering fails.
pub fn schema_of_text(text: &str) -> (r: Option<Option<String>>)
    ensures
        match r {
            Some(Some(s)) => schema_text(text@) == Some(Some(s@)),
            Some(None) => schema_text(text@) == Some(None::<Seq<char>>),
            None => schema_text(text@) is None,
        },
{
    match parse_json(text) {
        Some(v) => {
            let schema = json_to_schema(&v);
            Some(render_schema(&schema))
        },
        None => None,
    }
}

} // verus!
