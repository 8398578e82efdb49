//! JSON values, read by `serde_json` and held as plain data.

use vstd::prelude::*;

verus! {

// --- values ----------------------------------------------------------

/// A JSON value as mathematics. A number is held by what can be read of it as
/// whole seconds: `unsigned` is its value if it is written as an integer that
/// fits, `truncated` its value as a floating-point number cut to an integer.
pub enum JsonTree {
    Null,
    Bool(bool),
    Number { unsigned: Option<u64>, truncated: Option<u64> },
    Text(Seq<char>),
    Array(Seq<JsonTree>),
    Object(Seq<(Seq<char>, JsonTree)>),
}

/// A JSON value.
#[derive(Debug)]
pub enum Json {
    Null,
    Bool(bool),
    /// `unsigned` is the value of a number that is written as an integer and
    /// fits a `u64`; `truncated` is the value as a floating-point number, cut
    /// to a `u64`.
    Number { unsigned: Option<u64>, truncated: Option<u64> },
    Text(String),
    Array(Vec<Json>),
    /// The fields, each name once.
    Object(Vec<(String, Json)>),
}

impl Json {
    /// The value that this holds.
    pub open spec fn tree(self) -> JsonTree
        decreases self,
    {
        match self {
            Json::Null => JsonTree::Null,
            Json::Bool(b) => JsonTree::Bool(b),
            Json::Number { unsigned, truncated } => JsonTree::Number {
                unsigned: unsigned,
                truncated: truncated,
            },
            Json::Text(s) => JsonTree::Text(s@),
            Json::Array(items) => JsonTree::Array(
                Seq::new(
                    items@.len(),
                    |i: int|
                        if 0 <= i < items@.len() {
                            items@[i].tree()
                        } else {
                            arbitrary()
                        },
                ),
            ),
            Json::Object(fields) => JsonTree::Object(
                Seq::new(
                    fields@.len(),
                    |i: int|
                        if 0 <= i < fields@.len() {
                            (fields@[i].0@, fields@[i].1.tree())
                        } else {
                            arbitrary()
                        },
                ),
            ),
        }
    }
}

impl View for Json {
    type V = JsonTree;

    open spec fn view(&self) -> JsonTree {
        self.tree()
    }
}

/// The value of the first field of that name, from position `from` on.
pub open spec fn field_from(
    fields: Seq<(Seq<char>, JsonTree)>,
    key: Seq<char>,
    from: int,
) -> Option<JsonTree>
    decreases fields.len() - from,
{
    if from < 0 || from >= fields.len() {
        None
    } else if fields[from].0 == key {
        Some(fields[from].1)
    } else {
        field_from(fields, key, from + 1)
    }
}

impl JsonTree {
    /// The field of an object; nothing for a value that is no object.
    pub open spec fn field(self, key: Seq<char>) -> Option<JsonTree> {
        match self {
            JsonTree::Object(fields) => field_from(fields, key, 0),
            _ => None,
        }
    }
}

proof fn lemma_field_from(fields: Seq<(Seq<char>, JsonTree)>, key: Seq<char>, from: int, at: int)
    requires
        0 <= from <= at <= fields.len(),
        forall|i: int| from <= i < at ==> (#[trigger] fields[i]).0 != key,
        at < fields.len() ==> fields[at].0 == key,
    ensures
        field_from(fields, key, from) == (if at < fields.len() {
            Some(fields[at].1)
        } else {
            None
        }),
    decreases at - from,
{
    if from < at {
        assert(fields[from].0 != key);
        lemma_field_from(fields, key, from + 1, at);
    }
}

/// A field is found by its name wherever it stands, with its own value; where
/// no field has the name, none is found.
pub proof fn law_field_found_by_name(
    before: Seq<(Seq<char>, JsonTree)>,
    key: Seq<char>,
    value: JsonTree,
    after: Seq<(Seq<char>, JsonTree)>,
)
    requires
        forall|i: int| 0 <= i < before.len() ==> (#[trigger] before[i]).0 != key,
    ensures
        JsonTree::Object(before.push((key, value)) + after).field(key) == Some(value),
        JsonTree::Object(before).field(key) is None,
{
    let all = before.push((key, value)) + after;
    assert forall|i: int| 0 <= i < before.len() implies (#[trigger] all[i]).0 != key by {
        assert(all[i] == before[i]);
    }
    assert(all[before.len() as int] == (key, value));
    lemma_field_from(all, key, 0, before.len() as int);
    lemma_field_from(before, key, 0, before.len() as int);
}

impl Json {
    /// The field of that name, if the value is an object that has one.
    pub fn get(&self, key: &str) -> (field: Option<&Json>)
        ensures
            match field {
                Some(value) => self@.field(key@) == Some(value@),
                None => self@.field(key@) is None,
            },
    {
        let wanted = key.to_string();
        match self {
            Json::Object(fields) => {
                let ghost tree = Json::Object(*fields)@->Object_0;
                assert(*self == Json::Object(*fields));
                assert(tree == Seq::new(fields@.len(), |i: int| (fields@[i].0@, fields@[i].1@)));
                let mut i: usize = 0;
                while i < fields.len()
                    invariant
                        i <= fields@.len(),
                        *self == Json::Object(*fields),
                        self@ == JsonTree::Object(tree),
                        tree == Json::Object(*fields)@->Object_0,
                        tree.len() == fields@.len(),
                        wanted@ == key@,
                        field_from(tree, key@, i as int) == self@.field(key@),
                    decreases fields@.len() - i,
                {
                    assert(tree[i as int] == (fields@[i as int].0@, fields@[i as int].1@));
                    if fields[i].0 == wanted {
                        return Some(&fields[i].1);
                    }
                    i += 1;
                }
                None
            },
            _ => None,
        }
    }
}

// --- reading a value -------------------------------------------------

/// `serde_json::Value`, which only the JSON parser makes.
#[verifier::external_type_specification]
#[verifier::external_body]
pub struct ExJsonValue(serde_json::Value);

/// What a parsed value holds.
pub uninterp spec fn value_tree(value: serde_json::Value) -> JsonTree;

/// What `serde_json::from_str` reads from a text: the value it holds, or the
/// message of the syntax error. Both depend on the text alone.
pub uninterp spec fn json_text(text: Seq<char>) -> Result<JsonTree, Seq<char>>;

/// One level of a parsed value, its parts still unread.
enum JsonLevel {
    Null,
    Bool(bool),
    Number(Option<u64>, Option<u64>),
    Text(String),
    Array(Vec<serde_json::Value>),
    Object(Vec<(String, serde_json::Value)>),
}

/// The value that has this level at its top.
spec fn level_tree(level: JsonLevel) -> JsonTree {
    match level {
        JsonLevel::Null => JsonTree::Null,
        JsonLevel::Bool(b) => JsonTree::Bool(b),
        JsonLevel::Number(unsigned, truncated) => JsonTree::Number { unsigned, truncated },
        JsonLevel::Text(s) => JsonTree::Text(s@),
        JsonLevel::Array(items) => JsonTree::Array(
            Seq::new(items@.len(), |i: int| value_tree(items@[i])),
        ),
        JsonLevel::Object(fields) => JsonTree::Object(
            Seq::new(fields@.len(), |i: int| (fields@[i].0@, value_tree(fields@[i].1))),
        ),
    }
}

/// Calls `serde_json::from_str` for a `serde_json::Value`. It either reads the
/// whole text as one JSON value or returns a syntax error; [`json_text`] names
/// which, and the error is handed out as its message.
#[verifier::external_body]
fn parse_value(text: &str) -> (r: Result<serde_json::Value, String>)
    ensures
        match r {
            Ok(value) => json_text(text@) == Ok::<JsonTree, Seq<char>>(value_tree(value)),
            Err(message) => json_text(text@) == Err::<JsonTree, Seq<char>>(message@),
        },
{
    serde_json::from_str::<serde_json::Value>(text).map_err(|e| e.to_string())
}

/// Tells the variants of a `serde_json::Value` apart and moves its parts out.
/// A number gives up `Number::as_u64` and `Number::as_f64` cut to a `u64`; an
/// object gives up its fields in the order of its map.
#[verifier::external_body]
fn open_value(value: serde_json::Value) -> (level: JsonLevel)
    ensures
        level_tree(level) == value_tree(value),
{
    match value {
        serde_json::Value::Null => JsonLevel::Null,
        serde_json::Value::Bool(b) => JsonLevel::Bool(b),
        serde_json::Value::Number(n) => JsonLevel::Number(
            n.as_u64(),
            n.as_f64().map(|x| x as u64),
        ),
        serde_json::Value::String(s) => JsonLevel::Text(s),
        serde_json::Value::Array(items) => JsonLevel::Array(items),
        serde_json::Value::Object(fields) => JsonLevel::Object(fields.into_iter().collect()),
    }
}

fn json_of(value: serde_json::Value) -> (json: Json)
    ensures
        json@ == value_tree(value),
    decreases value_tree(value),
{
    let ghost tree = value_tree(value);
    match open_value(value) {
        JsonLevel::Null => Json::Null,
        JsonLevel::Bool(b) => Json::Bool(b),
        JsonLevel::Number(unsigned, truncated) => Json::Number { unsigned, truncated },
        JsonLevel::Text(s) => Json::Text(s),
        JsonLevel::Array(items) => {
            let mut out: Vec<Json> = Vec::new();
            for item in it: items
                invariant
                    it.seq() == items@,
                    tree == level_tree(JsonLevel::Array(items)),
                    tree == value_tree(value),
                    out@.len() == it.index(),
                    forall|i: int| 0 <= i < out@.len() ==> (#[trigger] out@[i])@ == value_tree(
                        items@[i],
                    ),
            {
                assert(tree->Array_0[it.index() as int] == value_tree(item));
                assert(decreases_to!(tree => tree->Array_0[it.index() as int]));
                out.push(json_of(item));
            }
            assert(Json::Array(out)@->Array_0 == tree->Array_0);
            Json::Array(out)
        },
        JsonLevel::Object(fields) => {
            let mut out: Vec<(String, Json)> = Vec::new();
            for field in it: fields
                invariant
                    it.seq() == fields@,
                    tree == level_tree(JsonLevel::Object(fields)),
                    tree == value_tree(value),
                    out@.len() == it.index(),
                    forall|i: int|
                        0 <= i < out@.len() ==> (#[trigger] out@[i]).0@ == fields@[i].0@
                            && out@[i].1@ == value_tree(fields@[i].1),
            {
                assert(tree->Object_0[it.index() as int] == (field.0@, value_tree(field.1)));
                assert(decreases_to!(tree => tree->Object_0[it.index() as int]));
                assert(decreases_to!(tree->Object_0[it.index() as int] => tree->Object_0[it.index() as int].1));
                out.push((field.0, json_of(field.1)));
            }
            assert(Json::Object(out)@->Object_0 == tree->Object_0);
            Json::Object(out)
        },
    }
}

/// Reads a whole text as one JSON value, or gives the parser's message.
pub fn parse_json(text: &str) -> (r: Result<Json, String>)
    ensures
        match r {
            Ok(json) => json_text(text@) == Ok::<JsonTree, Seq<char>>(json@),
            Err(message) => json_text(text@) == Err::<JsonTree, Seq<char>>(message@),
        },
{
    match parse_value(text) {
        Ok(value) => Ok(json_of(value)),
        Err(message) => Err(message),
    }
}

} // verus!
