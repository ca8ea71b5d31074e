//! Reading JSON text into a `Value` through serde_json.
use vstd::prelude::*;
use crate::value::{Value, ObjectMap, Model, models, lemma_models, obj_insert};
use crate::number::{parse_i64_spec, parse_u64_spec, parse_i64, parse_u64};
use crate::text::chars_of;
use serde_json::Value as JsonValue;

verus! {

/// serde_json's parsed tree, carried through without looking inside.
#[verifier::external_type_specification]
#[verifier::external_body]
pub struct ExJsonValue(JsonValue);

/// A JSON tree as plain values: a number is held as its text, an object as its entries in
/// the order the parsed map gives them.
pub enum JsonModel {
    Null,
    Bool(bool),
    Number(Seq<char>),
    Str(Seq<char>),
    Array(Seq<JsonModel>),
    Object(Seq<(Seq<char>, JsonModel)>),
}

/// What `serde_json::from_str::<JsonValue>` reports for the text `s`: `None` when it
/// parses, the error's message when it does not.
pub uninterp spec fn json_error(s: Seq<char>) -> Option<Seq<char>>;

/// The tree that `serde_json::from_str::<JsonValue>` parses from the text `s`.
pub uninterp spec fn json_tree(s: Seq<char>) -> JsonModel;

/// What a `JsonValue` holds, as plain values.
pub uninterp spec fn json_view(v: JsonValue) -> JsonModel;

/// One level of a parsed JSON tree.
enum JsonNode {
    Null,
    Bool(bool),
    Number(String),
    Str(String),
    Array(Vec<JsonValue>),
    Object(Vec<(String, JsonValue)>),
}

/// Calls `serde_json::from_str::<JsonValue>`; an error is returned as its message. Whether
/// it fails, and the message, are named by `json_error`, and the tree it gives by
/// `json_tree`.
#[verifier::external_body]
fn json_from_str(s: &str) -> (r: Result<JsonValue, String>)
    ensures
        match r {
            Ok(v) => json_error(s@) is None && json_view(v) == json_tree(s@),
            Err(m) => json_error(s@) == Some(m@),
        },
{
    serde_json::from_str::<JsonValue>(s).map_err(|e| e.to_string())
}

/// Takes one level of a `JsonValue` apart, moving its fields: a number comes as its
/// `Display` text, an object's entries in the map's own iteration order. Each part is what
/// `json_view` says the value holds.
#[verifier::external_body]
fn json_node(v: JsonValue) -> (r: JsonNode)
    ensures
        match r {
            JsonNode::Null => json_view(v) == JsonModel::Null,
            JsonNode::Bool(b) => json_view(v) == JsonModel::Bool(b),
            JsonNode::Number(t) => json_view(v) == JsonModel::Number(t@),
            JsonNode::Str(s) => json_view(v) == JsonModel::Str(s@),
            JsonNode::Array(items) => json_view(v) == JsonModel::Array(
                Seq::new(items@.len(), |i: int| json_view(items@[i])),
            ),
            JsonNode::Object(entries) => json_view(v) == JsonModel::Object(
                Seq::new(entries@.len(), |i: int| (entries@[i].0@, json_view(entries@[i].1))),
            ),
        },
{
    match v {
        JsonValue::Null => JsonNode::Null,
        JsonValue::Bool(b) => JsonNode::Bool(b),
        JsonValue::Number(n) => JsonNode::Number(n.to_string()),
        JsonValue::String(s) => JsonNode::Str(s),
        JsonValue::Array(a) => JsonNode::Array(a),
        JsonValue::Object(o) => JsonNode::Object(o.into_iter().collect()),
    }
}

/// A JSON number read from its text: an integer that fits `i64`, else one that fits `u64`,
/// else a float held as the text the document writes.
pub open spec fn json_number_model(t: Seq<char>) -> Model {
    match parse_i64_spec(t) {
        Some(i) => Model::Integer(i),
        None => match parse_u64_spec(t) {
            Some(u) => Model::Unsigned(u),
            None => Model::Float(t),
        },
    }
}

/// The value a JSON tree becomes: numbers as `json_number_model`, arrays element by element,
/// objects by inserting their entries in order.
pub open spec fn json_model(j: JsonModel) -> Model
    decreases j, 0nat,
{
    match j {
        JsonModel::Null => Model::Null,
        JsonModel::Bool(b) => Model::Bool(b),
        JsonModel::Number(t) => json_number_model(t),
        JsonModel::Str(s) => Model::Str(s),
        JsonModel::Array(a) => Model::Array(json_models(a)),
        JsonModel::Object(e) => Model::Object(json_entries(e)),
    }
}

/// The values that JSON trees become, in order.
pub open spec fn json_models(a: Seq<JsonModel>) -> Seq<Model>
    decreases a, 1nat,
{
    if a.len() == 0 {
        Seq::empty()
    } else {
        json_models(a.drop_last()).push(json_model(a.last()))
    }
}

/// The entries of a JSON object inserted in order into an empty object.
pub open spec fn json_entries(e: Seq<(Seq<char>, JsonModel)>) -> Seq<(Seq<char>, Model)>
    decreases e, 1nat,
{
    if e.len() == 0 {
        Seq::empty()
    } else {
        obj_insert(json_entries(e.drop_last()), e.last().0, json_model(e.last().1))
    }
}

/// What parsing JSON text gives: the value of its tree, or nothing when serde_json rejects it.
pub open spec fn json_parse_model(t: Seq<char>) -> Option<Model> {
    if json_error(t) is None {
        Some(json_model(json_tree(t)))
    } else {
        None
    }
}

pub(crate) proof fn lemma_json_models(a: Seq<JsonModel>)
    ensures
        json_models(a).len() == a.len(),
        forall|i: int| 0 <= i < a.len() ==> #[trigger] json_models(a)[i] == json_model(a[i]),
    decreases a.len(),
{
    if a.len() > 0 {
        lemma_json_models(a.drop_last());
    }
}

/// The value of a number given as its text (see `json_number_model`).
pub(crate) fn number_value(t: String) -> (r: Value)
    ensures
        r.model() == json_number_model(t@),
{
    let c = chars_of(t.as_str());
    match parse_i64(c.as_slice()) {
        Some(i) => Value::Integer(i),
        None => match parse_u64(c.as_slice()) {
            Some(u) => Value::Unsigned(u),
            None => Value::Float(t),
        },
    }
}

/// Converts a parsed JSON tree into a `Value` (see `json_model`).
#[verifier::loop_isolation(false)]
fn value_from_json(v: JsonValue) -> (r: Value)
    ensures
        r.model() == json_model(json_view(v)),
    decreases json_view(v),
{
    let ghost jv = json_view(v);
    match json_node(v) {
        JsonNode::Null => Value::Null,
        JsonNode::Bool(b) => Value::Bool(b),
        JsonNode::Number(t) => number_value(t),
        JsonNode::Str(s) => Value::String(s),
        JsonNode::Array(items) => {
            let mut items = items;
            let ghost orig = items@;
            let ghost gs = Seq::new(orig.len(), |i: int| json_view(orig[i]));
            assert(jv == JsonModel::Array(gs));
            let mut rev: Vec<Value> = Vec::new();
            while items.len() > 0
                invariant
                    items.len() <= orig.len(),
                    items@ == orig.take(items.len() as int),
                    rev@.len() == orig.len() - items.len(),
                    forall|k: int| 0 <= k < rev@.len() ==> #[trigger] rev@[k].model() == json_model(gs[orig.len() - 1 - k]),
                decreases items.len(),
            {
                let ghost idx = items.len() - 1;
                let item = items.pop().unwrap();
                proof {
                    assert(item == orig[idx]);
                    assert(json_view(item) == gs[idx]);
                    assert(decreases_to!(jv => gs));
                    assert(decreases_to!(gs => gs[idx]));
                }
                let x = value_from_json(item);
                rev.push(x);
            }
            let mut out: Vec<Value> = Vec::new();
            while rev.len() > 0
                invariant
                    rev@.len() + out@.len() == orig.len(),
                    forall|k: int| 0 <= k < rev@.len() ==> #[trigger] rev@[k].model() == json_model(gs[orig.len() - 1 - k]),
                    forall|k: int| 0 <= k < out@.len() ==> #[trigger] out@[k].model() == json_model(gs[k]),
                decreases rev.len(),
            {
                let x = rev.pop().unwrap();
                out.push(x);
            }
            proof {
                lemma_models(out@);
                lemma_json_models(gs);
                assert(models(out@) =~= json_models(gs));
            }
            Value::Array(out)
        },
        JsonNode::Object(entries) => {
            let mut entries = entries;
            let ghost orig = entries@;
            assert(orig.len() == entries.len());
            let ghost gs = Seq::new(orig.len(), |i: int| (orig[i].0@, json_view(orig[i].1)));
            assert(jv == JsonModel::Object(gs));
            let mut rev: Vec<(String, Value)> = Vec::new();
            while entries.len() > 0
                invariant
                    entries.len() <= orig.len(),
                    orig.len() <= usize::MAX,
                    entries@ == orig.take(entries.len() as int),
                    rev@.len() == orig.len() - entries.len(),
                    forall|k: int|
                        0 <= k < rev@.len() ==> #[trigger] rev@[k].0@ == gs[orig.len() - 1 - k].0
                            && rev@[k].1.model() == json_model(gs[orig.len() - 1 - k].1),
                decreases entries.len(),
            {
                let ghost idx = entries.len() - 1;
                let (k, item) = entries.pop().unwrap();
                proof {
                    assert(item == orig[idx].1);
                    assert(json_view(item) == gs[idx].1);
                    assert(decreases_to!(jv => gs));
                    assert(decreases_to!(gs => gs[idx]));
                    assert(decreases_to!(gs[idx] => gs[idx].1));
                }
                let x = value_from_json(item);
                rev.push((k, x));
            }
            assert(orig.len() == rev@.len());
            let mut m = ObjectMap::new();
            let mut n: usize = 0;
            while rev.len() > 0
                invariant
                    rev@.len() + n == orig.len(),
                    orig.len() <= usize::MAX,
                    forall|k: int|
                        0 <= k < rev@.len() ==> #[trigger] rev@[k].0@ == gs[orig.len() - 1 - k].0
                            && rev@[k].1.model() == json_model(gs[orig.len() - 1 - k].1),
                    m@ == json_entries(gs.take(n as int)),
                decreases rev.len(),
            {
                let ghost before = rev@;
                let (k, x) = rev.pop().unwrap();
                proof {
                    assert(gs.take(n + 1).drop_last() =~= gs.take(n as int));
                    assert forall|j: int| 0 <= j < rev@.len() implies #[trigger] rev@[j].0@ == gs[orig.len() - 1 - j].0
                        && rev@[j].1.model() == json_model(gs[orig.len() - 1 - j].1) by {
                        assert(rev@[j] == before[j]);
                    }
                }
                let _ = m.insert(k, x);
                n = n + 1;
            }
            proof {
                assert(gs.take(n as int) =~= gs);
            }
            Value::Object(m)
        },
    }
}

/// Reads JSON text into a `Value`; `None` when serde_json rejects it.
pub(crate) fn parse_json_text(text: &str) -> (r: Option<Value>)
    ensures
        match r {
            Some(v) => json_parse_model(text@) == Some(v.model()),
            None => json_parse_model(text@) is None,
        },
{
    match json_from_str(text) {
        Ok(v) => Some(value_from_json(v)),
        Err(_) => None,
    }
}

/// Reads JSON text into a `Value`; serde_json's message when it rejects the text.
pub(crate) fn read_json(text: &str) -> (r: Result<Value, String>)
    ensures
        match r {
            Ok(v) => json_error(text@) is None && v.model() == json_model(json_tree(text@)),
            Err(m) => json_error(text@) == Some(m@),
        },
{
    match json_from_str(text) {
        Ok(v) => Ok(value_from_json(v)),
        Err(m) => Err(m),
    }
}

} // verus!
