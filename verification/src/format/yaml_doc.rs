//! YAML documents, read through serde_yaml.
use vstd::prelude::*;
use serde_yaml::Value as YamlValue;
use crate::value::{Value, ObjectMap, Model, models, lemma_models, obj_insert};
use crate::json::{json_number_model, number_value};
use crate::error::{ConfigError, ConfigResult, ErrorModel};
use crate::text::owned;

verus! {

/// serde_yaml's parsed tree, carried through without looking inside.
#[verifier::external_type_specification]
#[verifier::external_body]
pub struct ExYamlValue(YamlValue);

/// What `serde_yaml::from_str::<serde_yaml::Value>` reports for the text `s`: `None` when
/// it parses, the error's message when it does not.
pub uninterp spec fn yaml_error(s: Seq<char>) -> Option<Seq<char>>;

/// A YAML tree as plain values: a number is held as its display text, a mapping as its
/// entries in the mapping's order, a tagged value as the value it tags.
pub enum YamlModel {
    Null,
    Bool(bool),
    Number(Seq<char>),
    Str(Seq<char>),
    Sequence(Seq<YamlModel>),
    Mapping(Seq<(YamlModel, YamlModel)>),
    Tagged(Box<YamlModel>),
}

/// The tree that `serde_yaml::from_str::<serde_yaml::Value>` parses from the text `s`.
pub uninterp spec fn yaml_tree(s: Seq<char>) -> YamlModel;

/// What a `serde_yaml::Value` holds, as plain values.
pub uninterp spec fn yaml_view(v: YamlValue) -> YamlModel;

/// One level of a parsed YAML tree; a number comes as its display text, a tagged value as
/// the value it tags.
enum YamlNode {
    Null,
    Bool(bool),
    Number(String),
    Str(String),
    Sequence(Vec<YamlValue>),
    Mapping(Vec<(YamlValue, YamlValue)>),
    Tagged(YamlValue),
}

/// Calls `serde_yaml::from_str::<serde_yaml::Value>`; an error is returned as its message.
/// Whether it fails, and the message, are named by `yaml_error`, and the tree it gives by
/// `yaml_tree`.
#[verifier::external_body]
fn yaml_from_str(s: &str) -> (r: Result<YamlValue, String>)
    ensures
        match r {
            Ok(v) => yaml_error(s@) is None && yaml_view(v) == yaml_tree(s@),
            Err(m) => yaml_error(s@) == Some(m@),
        },
{
    serde_yaml::from_str::<YamlValue>(s).map_err(|e| e.to_string())
}

/// Takes one level of a `serde_yaml::Value` apart, moving its fields; a number is rendered
/// with `to_string`, a mapping's entries come out in the mapping's order. Each part is what
/// `yaml_view` says the value holds.
#[verifier::external_body]
fn yaml_node(v: YamlValue) -> (r: YamlNode)
    ensures
        match r {
            YamlNode::Null => yaml_view(v) == YamlModel::Null,
            YamlNode::Bool(b) => yaml_view(v) == YamlModel::Bool(b),
            YamlNode::Number(t) => yaml_view(v) == YamlModel::Number(t@),
            YamlNode::Str(s) => yaml_view(v) == YamlModel::Str(s@),
            YamlNode::Sequence(items) => yaml_view(v) == YamlModel::Sequence(
                Seq::new(items@.len(), |i: int| yaml_view(items@[i])),
            ),
            YamlNode::Mapping(entries) => yaml_view(v) == YamlModel::Mapping(
                Seq::new(entries@.len(), |i: int| (yaml_view(entries@[i].0), yaml_view(entries@[i].1))),
            ),
            YamlNode::Tagged(inner) => yaml_view(v) == YamlModel::Tagged(Box::new(yaml_view(inner))),
        },
{
    match v {
        YamlValue::Null => YamlNode::Null,
        YamlValue::Bool(b) => YamlNode::Bool(b),
        YamlValue::Number(n) => YamlNode::Number(n.to_string()),
        YamlValue::String(s) => YamlNode::Str(s),
        YamlValue::Sequence(items) => YamlNode::Sequence(items),
        YamlValue::Mapping(m) => YamlNode::Mapping(m.into_iter().collect()),
        YamlValue::Tagged(t) => YamlNode::Tagged(t.value),
    }
}

/// The value a YAML tree becomes: numbers as `json_number_model` reads their text,
/// sequences element by element, mappings by inserting in order the entries whose key is a
/// string (the others are dropped), and a tagged value as the value it tags.
pub open spec fn yaml_model(y: YamlModel) -> Model
    decreases y, 0nat,
{
    match y {
        YamlModel::Null => Model::Null,
        YamlModel::Bool(b) => Model::Bool(b),
        YamlModel::Number(t) => json_number_model(t),
        YamlModel::Str(s) => Model::Str(s),
        YamlModel::Sequence(a) => Model::Array(yaml_models(a)),
        YamlModel::Mapping(e) => Model::Object(yaml_entries(e)),
        YamlModel::Tagged(b) => yaml_model(*b),
    }
}

/// The values that YAML trees become, in order.
pub open spec fn yaml_models(a: Seq<YamlModel>) -> Seq<Model>
    decreases a, 1nat,
{
    if a.len() == 0 {
        Seq::empty()
    } else {
        yaml_models(a.drop_last()).push(yaml_model(a.last()))
    }
}

/// The entries of a YAML mapping whose key is a string, inserted in order into an empty
/// object.
pub open spec fn yaml_entries(e: Seq<(YamlModel, YamlModel)>) -> Seq<(Seq<char>, Model)>
    decreases e, 1nat,
{
    if e.len() == 0 {
        Seq::empty()
    } else {
        let r = yaml_entries(e.drop_last());
        match e.last().0 {
            YamlModel::Str(k) => obj_insert(r, k, yaml_model(e.last().1)),
            _ => r,
        }
    }
}

proof fn lemma_yaml_models(a: Seq<YamlModel>)
    ensures
        yaml_models(a).len() == a.len(),
        forall|i: int| 0 <= i < a.len() ==> #[trigger] yaml_models(a)[i] == yaml_model(a[i]),
    decreases a.len(),
{
    if a.len() > 0 {
        lemma_yaml_models(a.drop_last());
    }
}

/// An entry as converted: its key and value when the key is a string, nothing otherwise.
spec fn entry_done(x: Option<(String, Value)>, e: (YamlModel, YamlModel)) -> bool {
    match e.0 {
        YamlModel::Str(k) => x is Some && x->Some_0.0@ == k && x->Some_0.1.model() == yaml_model(e.1),
        _ => x is None,
    }
}

/// Converts a parsed YAML tree into a `Value` (see `yaml_model`).
#[verifier::loop_isolation(false)]
fn value_from_yaml(v: YamlValue) -> (r: Value)
    ensures
        r.model() == yaml_model(yaml_view(v)),
    decreases yaml_view(v),
{
    let ghost yv = yaml_view(v);
    match yaml_node(v) {
        YamlNode::Null => Value::Null,
        YamlNode::Bool(b) => Value::Bool(b),
        YamlNode::Number(t) => number_value(t),
        YamlNode::Str(s) => Value::String(s),
        YamlNode::Sequence(items) => {
            let mut items = items;
            let ghost orig = items@;
            let ghost gs = Seq::new(orig.len(), |i: int| yaml_view(orig[i]));
            assert(yv == YamlModel::Sequence(gs));
            let mut rev: Vec<Value> = Vec::new();
            while items.len() > 0
                invariant
                    items.len() <= orig.len(),
                    items@ == orig.take(items.len() as int),
                    rev@.len() == orig.len() - items.len(),
                    forall|k: int| 0 <= k < rev@.len() ==> #[trigger] rev@[k].model() == yaml_model(gs[orig.len() - 1 - k]),
                decreases items.len(),
            {
                let ghost idx = items.len() - 1;
                let item = items.pop().unwrap();
                proof {
                    assert(item == orig[idx]);
                    assert(yaml_view(item) == gs[idx]);
                    assert(decreases_to!(yv => gs));
                    assert(decreases_to!(gs => gs[idx]));
                }
                let x = value_from_yaml(item);
                rev.push(x);
            }
            let mut out: Vec<Value> = Vec::new();
            while rev.len() > 0
                invariant
                    rev@.len() + out@.len() == orig.len(),
                    forall|k: int| 0 <= k < rev@.len() ==> #[trigger] rev@[k].model() == yaml_model(gs[orig.len() - 1 - k]),
                    forall|k: int| 0 <= k < out@.len() ==> #[trigger] out@[k].model() == yaml_model(gs[k]),
                decreases rev.len(),
            {
                let x = rev.pop().unwrap();
                out.push(x);
            }
            proof {
                lemma_models(out@);
                lemma_yaml_models(gs);
                assert(models(out@) =~= yaml_models(gs));
            }
            Value::Array(out)
        },
        YamlNode::Mapping(entries) => {
            let mut entries = entries;
            let ghost orig = entries@;
            assert(orig.len() == entries.len());
            let ghost gs = Seq::new(orig.len(), |i: int| (yaml_view(orig[i].0), yaml_view(orig[i].1)));
            assert(yv == YamlModel::Mapping(gs));
            let mut rev: Vec<Option<(String, Value)>> = Vec::new();
            while entries.len() > 0
                invariant
                    entries.len() <= orig.len(),
                    orig.len() <= usize::MAX,
                    entries@ == orig.take(entries.len() as int),
                    rev@.len() == orig.len() - entries.len(),
                    forall|k: int| 0 <= k < rev@.len() ==> #[trigger] entry_done(rev@[k], gs[orig.len() - 1 - k]),
                decreases entries.len(),
            {
                let ghost idx = entries.len() - 1;
                let (k, item) = entries.pop().unwrap();
                proof {
                    assert(k == orig[idx].0);
                    assert(item == orig[idx].1);
                    assert(yaml_view(k) == gs[idx].0);
                    assert(yaml_view(item) == gs[idx].1);
                    assert(decreases_to!(yv => gs));
                    assert(decreases_to!(gs => gs[idx]));
                    assert(decreases_to!(gs[idx] => gs[idx].1));
                }
                match yaml_node(k) {
                    YamlNode::Str(key) => {
                        let x = value_from_yaml(item);
                        rev.push(Some((key, x)));
                    },
                    _ => {
                        rev.push(None);
                    },
                }
            }
            assert(orig.len() == rev@.len());
            let mut m = ObjectMap::new();
            let mut n: usize = 0;
            while rev.len() > 0
                invariant
                    rev@.len() + n == orig.len(),
                    orig.len() <= usize::MAX,
                    forall|k: int| 0 <= k < rev@.len() ==> #[trigger] entry_done(rev@[k], gs[orig.len() - 1 - k]),
                    m@ == yaml_entries(gs.take(n as int)),
                decreases rev.len(),
            {
                let ghost before = rev@;
                let x = rev.pop().unwrap();
                proof {
                    assert(gs.take(n + 1).drop_last() =~= gs.take(n as int));
                    assert(gs.take(n + 1).last() == gs[n as int]);
                    let last = before.len() - 1;
                    assert(x == before[last]);
                    assert(entry_done(before[last], gs[orig.len() - 1 - last]));
                    assert(entry_done(x, gs[n as int]));
                    assert forall|j: int| 0 <= j < rev@.len() implies #[trigger] entry_done(rev@[j], gs[orig.len() - 1 - j]) by {
                        assert(rev@[j] == before[j]);
                    }
                }
                match x {
                    Some((k, val)) => {
                        let _ = m.insert(k, val);
                    },
                    None => {},
                }
                n = n + 1;
            }
            proof {
                assert(gs.take(n as int) =~= gs);
            }
            Value::Object(m)
        },
        YamlNode::Tagged(inner) => {
            proof {
                assert(decreases_to!(yv => yaml_view(inner)));
            }
            value_from_yaml(inner)
        },
    }
}

/// Reads a YAML document: the value of the tree serde_yaml gives (see `yaml_model`);
/// serde_yaml's message is the detail of the parse error.
pub fn load(content: &str) -> (r: ConfigResult<Value>)
    ensures
        match yaml_error(content@) {
            Some(m) => r is Err && r->Err_0.model() == (ErrorModel::ParseError { format: "YAML"@, detail: m }),
            None => r is Ok && r->Ok_0.model() == yaml_model(yaml_tree(content@)),
        },
{
    match yaml_from_str(content) {
        Ok(v) => Ok(value_from_yaml(v)),
        Err(m) => Err(ConfigError::ParseError { format: owned("YAML"), detail: m }),
    }
}

} // verus!
