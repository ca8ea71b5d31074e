//! TOML documents, read through the `toml` crate.
use vstd::prelude::*;
use toml::Value as TomlValue;
use crate::value::{Value, ObjectMap, Model, models, lemma_models, obj_insert};
use crate::error::{ConfigError, ConfigResult, ErrorModel};
use crate::text::owned;

verus! {

/// The `toml` crate's parsed tree, carried through without looking inside.
#[verifier::external_type_specification]
#[verifier::external_body]
pub struct ExTomlValue(TomlValue);

/// What `toml::from_str::<toml::Value>` reports for the text `s`: `None` when it parses,
/// the error's message when it does not.
pub uninterp spec fn toml_error(s: Seq<char>) -> Option<Seq<char>>;

/// A TOML tree as plain values: a float and a datetime are held as their display text, a
/// table as its entries in the order the parsed table gives them.
pub enum TomlModel {
    Str(Seq<char>),
    Int(i64),
    Float(Seq<char>),
    Bool(bool),
    Datetime(Seq<char>),
    Array(Seq<TomlModel>),
    Table(Seq<(Seq<char>, TomlModel)>),
}

/// The tree that `toml::from_str::<toml::Value>` parses from the text `s`.
pub uninterp spec fn toml_tree(s: Seq<char>) -> TomlModel;

/// What a `toml::Value` holds, as plain values.
pub uninterp spec fn toml_view(v: TomlValue) -> TomlModel;

/// One level of a parsed TOML tree; a float and a datetime come as their display text.
enum TomlNode {
    Str(String),
    Int(i64),
    Float(String),
    Bool(bool),
    Datetime(String),
    Array(Vec<TomlValue>),
    Table(Vec<(String, TomlValue)>),
}

/// Calls `toml::from_str::<toml::Value>`; an error is returned as its message. Whether it
/// fails, and the message, are named by `toml_error`, and the tree it gives by `toml_tree`.
#[verifier::external_body]
fn toml_from_str(s: &str) -> (r: Result<TomlValue, String>)
    ensures
        match r {
            Ok(v) => toml_error(s@) is None && toml_view(v) == toml_tree(s@),
            Err(m) => toml_error(s@) == Some(m@),
        },
{
    toml::from_str::<TomlValue>(s).map_err(|e| e.to_string())
}

/// Takes one level of a `toml::Value` apart, moving its fields; a float and a datetime are
/// rendered with `to_string`, a table's entries come out in the table's iteration order.
/// Each part is what `toml_view` says the value holds.
#[verifier::external_body]
fn toml_node(v: TomlValue) -> (r: TomlNode)
    ensures
        match r {
            TomlNode::Str(s) => toml_view(v) == TomlModel::Str(s@),
            TomlNode::Int(i) => toml_view(v) == TomlModel::Int(i),
            TomlNode::Float(t) => toml_view(v) == TomlModel::Float(t@),
            TomlNode::Bool(b) => toml_view(v) == TomlModel::Bool(b),
            TomlNode::Datetime(t) => toml_view(v) == TomlModel::Datetime(t@),
            TomlNode::Array(items) => toml_view(v) == TomlModel::Array(
                Seq::new(items@.len(), |i: int| toml_view(items@[i])),
            ),
            TomlNode::Table(entries) => toml_view(v) == TomlModel::Table(
                Seq::new(entries@.len(), |i: int| (entries@[i].0@, toml_view(entries@[i].1))),
            ),
        },
{
    match v {
        TomlValue::String(s) => TomlNode::Str(s),
        TomlValue::Integer(i) => TomlNode::Int(i),
        TomlValue::Float(f) => TomlNode::Float(f.to_string()),
        TomlValue::Boolean(b) => TomlNode::Bool(b),
        TomlValue::Datetime(d) => TomlNode::Datetime(d.to_string()),
        TomlValue::Array(a) => TomlNode::Array(a),
        TomlValue::Table(t) => TomlNode::Table(t.into_iter().collect()),
    }
}

/// The value a TOML tree becomes: a datetime as the string of its text, a float as its
/// text, arrays element by element, tables by inserting their entries in order.
pub open spec fn toml_model(t: TomlModel) -> Model
    decreases t, 0nat,
{
    match t {
        TomlModel::Str(s) => Model::Str(s),
        TomlModel::Int(i) => Model::Integer(i),
        TomlModel::Float(x) => Model::Float(x),
        TomlModel::Bool(b) => Model::Bool(b),
        TomlModel::Datetime(x) => Model::Str(x),
        TomlModel::Array(a) => Model::Array(toml_models(a)),
        TomlModel::Table(e) => Model::Object(toml_entries(e)),
    }
}

/// The values that TOML trees become, in order.
pub open spec fn toml_models(a: Seq<TomlModel>) -> Seq<Model>
    decreases a, 1nat,
{
    if a.len() == 0 {
        Seq::empty()
    } else {
        toml_models(a.drop_last()).push(toml_model(a.last()))
    }
}

/// The entries of a TOML table inserted in order into an empty object.
pub open spec fn toml_entries(e: Seq<(Seq<char>, TomlModel)>) -> Seq<(Seq<char>, Model)>
    decreases e, 1nat,
{
    if e.len() == 0 {
        Seq::empty()
    } else {
        obj_insert(toml_entries(e.drop_last()), e.last().0, toml_model(e.last().1))
    }
}

proof fn lemma_toml_models(a: Seq<TomlModel>)
    ensures
        toml_models(a).len() == a.len(),
        forall|i: int| 0 <= i < a.len() ==> #[trigger] toml_models(a)[i] == toml_model(a[i]),
    decreases a.len(),
{
    if a.len() > 0 {
        lemma_toml_models(a.drop_last());
    }
}

/// Converts a parsed TOML tree into a `Value` (see `toml_model`).
#[verifier::loop_isolation(false)]
fn value_from_toml(v: TomlValue) -> (r: Value)
    ensures
        r.model() == toml_model(toml_view(v)),
    decreases toml_view(v),
{
    let ghost tv = toml_view(v);
    match toml_node(v) {
        TomlNode::Str(s) => Value::String(s),
        TomlNode::Int(i) => Value::Integer(i),
        TomlNode::Float(t) => Value::Float(t),
        TomlNode::Bool(b) => Value::Bool(b),
        TomlNode::Datetime(t) => Value::String(t),
        TomlNode::Array(items) => {
            let mut items = items;
            let ghost orig = items@;
            let ghost gs = Seq::new(orig.len(), |i: int| toml_view(orig[i]));
            assert(tv == TomlModel::Array(gs));
            let mut rev: Vec<Value> = Vec::new();
            while items.len() > 0
                invariant
                    items.len() <= orig.len(),
                    items@ == orig.take(items.len() as int),
                    rev@.len() == orig.len() - items.len(),
                    forall|k: int| 0 <= k < rev@.len() ==> #[trigger] rev@[k].model() == toml_model(gs[orig.len() - 1 - k]),
                decreases items.len(),
            {
                let ghost idx = items.len() - 1;
                let item = items.pop().unwrap();
                proof {
                    assert(item == orig[idx]);
                    assert(toml_view(item) == gs[idx]);
                    assert(decreases_to!(tv => gs));
                    assert(decreases_to!(gs => gs[idx]));
                }
                let x = value_from_toml(item);
                rev.push(x);
            }
            let mut out: Vec<Value> = Vec::new();
            while rev.len() > 0
                invariant
                    rev@.len() + out@.len() == orig.len(),
                    forall|k: int| 0 <= k < rev@.len() ==> #[trigger] rev@[k].model() == toml_model(gs[orig.len() - 1 - k]),
                    forall|k: int| 0 <= k < out@.len() ==> #[trigger] out@[k].model() == toml_model(gs[k]),
                decreases rev.len(),
            {
                let x = rev.pop().unwrap();
                out.push(x);
            }
            proof {
                lemma_models(out@);
                lemma_toml_models(gs);
                assert(models(out@) =~= toml_models(gs));
            }
            Value::Array(out)
        },
        TomlNode::Table(entries) => {
            let mut entries = entries;
            let ghost orig = entries@;
            assert(orig.len() == entries.len());
            let ghost gs = Seq::new(orig.len(), |i: int| (orig[i].0@, toml_view(orig[i].1)));
            assert(tv == TomlModel::Table(gs));
            let mut rev: Vec<(String, Value)> = Vec::new();
            while entries.len() > 0
                invariant
                    entries.len() <= orig.len(),
                    orig.len() <= usize::MAX,
                    entries@ == orig.take(entries.len() as int),
                    rev@.len() == orig.len() - entries.len(),
                    forall|k: int|
                        0 <= k < rev@.len() ==> #[trigger] rev@[k].0@ == gs[orig.len() - 1 - k].0
                            && rev@[k].1.model() == toml_model(gs[orig.len() - 1 - k].1),
                decreases entries.len(),
            {
                let ghost idx = entries.len() - 1;
                let (k, item) = entries.pop().unwrap();
                proof {
                    assert(item == orig[idx].1);
                    assert(toml_view(item) == gs[idx].1);
                    assert(decreases_to!(tv => gs));
                    assert(decreases_to!(gs => gs[idx]));
                    assert(decreases_to!(gs[idx] => gs[idx].1));
                }
                let x = value_from_toml(item);
                rev.push((k, x));
            }
            assert(orig.len() == rev@.len());
            let mut m = ObjectMap::new();
            let mut n: usize = 0;
            while rev.len() > 0
                invariant
                    rev@.len() + n == orig.len(),
                    orig.len() <= usize::MAX,
                    forall|k: int|
                        0 <= k < rev@.len() ==> #[trigger] rev@[k].0@ == gs[orig.len() - 1 - k].0
                            && rev@[k].1.model() == toml_model(gs[orig.len() - 1 - k].1),
                    m@ == toml_entries(gs.take(n as int)),
                decreases rev.len(),
            {
                let ghost before = rev@;
                let (k, x) = rev.pop().unwrap();
                proof {
                    assert(gs.take(n + 1).drop_last() =~= gs.take(n as int));
                    assert forall|j: int| 0 <= j < rev@.len() implies #[trigger] rev@[j].0@ == gs[orig.len() - 1 - j].0
                        && rev@[j].1.model() == toml_model(gs[orig.len() - 1 - j].1) by {
                        assert(rev@[j] == before[j]);
                    }
                }
                let _ = m.insert(k, x);
                n = n + 1;
            }
            proof {
                assert(gs.take(n as int) =~= gs);
            }
            Value::Object(m)
        },
    }
}

/// Reads a TOML document: the value of the tree the parser gives (see `toml_model`); the
/// parser's message is the detail of the parse error.
pub fn load(content: &str) -> (r: ConfigResult<Value>)
    ensures
        match toml_error(content@) {
            Some(m) => r is Err && r->Err_0.model() == (ErrorModel::ParseError { format: "TOML"@, detail: m }),
            None => r is Ok && r->Ok_0.model() == toml_model(toml_tree(content@)),
        },
{
    match toml_from_str(content) {
        Ok(v) => Ok(value_from_toml(v)),
        Err(m) => Err(ConfigError::ParseError { format: owned("TOML"), detail: m }),
    }
}

/// Why a value cannot be written as TOML, at its first part in document order that TOML
/// cannot hold: a null, or an unsigned integer above `i64::MAX`.
pub open spec fn toml_refusal(m: Model) -> Option<Seq<char>>
    decreases m, 0nat,
{
    match m {
        Model::Null => Some("TOML has no null"@),
        Model::Unsigned(u) => if u > i64::MAX {
            Some("unsigned integer exceeds TOML's signed 64-bit range"@)
        } else {
            None
        },
        Model::Array(a) => toml_refusal_items(a),
        Model::Object(e) => toml_refusal_entries(e),
        _ => None,
    }
}

/// The first refusal among the elements, in order.
pub open spec fn toml_refusal_items(a: Seq<Model>) -> Option<Seq<char>>
    decreases a, 1nat,
{
    if a.len() == 0 {
        None
    } else {
        match toml_refusal_items(a.drop_last()) {
            Some(r) => Some(r),
            None => toml_refusal(a.last()),
        }
    }
}

/// The first refusal among the entries' values, in order.
pub open spec fn toml_refusal_entries(e: Seq<(Seq<char>, Model)>) -> Option<Seq<char>>
    decreases e, 1nat,
{
    if e.len() == 0 {
        None
    } else {
        match toml_refusal_entries(e.drop_last()) {
            Some(r) => Some(r),
            None => toml_refusal(e.last().1),
        }
    }
}

#[verifier::loop_isolation(false)]
fn toml_refusal_exec(v: &Value) -> (r: Option<&'static str>)
    ensures
        match toml_refusal(v.model()) {
            Some(d) => r is Some && r->Some_0@ == d,
            None => r is None,
        },
    decreases v, 0nat,
{
    match v {
        Value::Null => Some("TOML has no null"),
        Value::Unsigned(u) => if *u > 0x7FFF_FFFF_FFFF_FFFF {
            Some("unsigned integer exceeds TOML's signed 64-bit range")
        } else {
            None
        },
        Value::Array(a) => {
            proof {
                lemma_models(a@);
            }
            let mut i: usize = 0;
            while i < a.len()
                invariant
                    i <= a.len(),
                    toml_refusal_items(models(a@).take(i as int)) is None,
                decreases a.len() - i,
            {
                proof {
                    assert(decreases_to!(v => a));
                    assert(decreases_to!(a => a[i as int]));
                    assert(models(a@).take(i + 1).drop_last() =~= models(a@).take(i as int));
                }
                match toml_refusal_exec(&a[i]) {
                    Some(d) => {
                        proof {
                            lemma_toml_refusal_items_up(models(a@), i + 1);
                        }
                        return Some(d);
                    },
                    None => {},
                }
                i = i + 1;
            }
            proof {
                assert(models(a@).take(i as int) =~= models(a@));
            }
            None
        },
        Value::Object(m) => {
            let mut i: usize = 0;
            while i < m.len()
                invariant
                    i <= m@.len(),
                    toml_refusal_entries(m@.take(i as int)) is None,
                decreases m@.len() - i,
            {
                let x = m.value_at(i);
                proof {
                    assert(decreases_to!(v => m));
                    assert(decreases_to!(*m => *x));
                    assert(m@.take(i + 1).drop_last() =~= m@.take(i as int));
                }
                match toml_refusal_exec(x) {
                    Some(d) => {
                        proof {
                            lemma_toml_refusal_entries_up(m@, i + 1);
                        }
                        return Some(d);
                    },
                    None => {},
                }
                i = i + 1;
            }
            proof {
                assert(m@.take(i as int) =~= m@);
            }
            None
        },
        _ => None,
    }
}

/// A refusal found among the first `k` elements is the refusal of them all.
proof fn lemma_toml_refusal_items_up(a: Seq<Model>, k: int)
    requires
        0 <= k <= a.len(),
        toml_refusal_items(a.take(k)) is Some,
    ensures
        toml_refusal_items(a) == toml_refusal_items(a.take(k)),
    decreases a.len() - k,
{
    if k < a.len() {
        assert(a.take(k + 1).drop_last() =~= a.take(k));
        lemma_toml_refusal_items_up(a, k + 1);
    } else {
        assert(a.take(k) =~= a);
    }
}

/// A refusal found among the first `k` entries is the refusal of them all.
proof fn lemma_toml_refusal_entries_up(e: Seq<(Seq<char>, Model)>, k: int)
    requires
        0 <= k <= e.len(),
        toml_refusal_entries(e.take(k)) is Some,
    ensures
        toml_refusal_entries(e) == toml_refusal_entries(e.take(k)),
    decreases e.len() - k,
{
    if k < e.len() {
        assert(e.take(k + 1).drop_last() =~= e.take(k));
        lemma_toml_refusal_entries_up(e, k + 1);
    } else {
        assert(e.take(k) =~= e);
    }
}

/// Whether a document can be written as TOML: it is refused at its first null, or its first
/// unsigned integer above `i64::MAX` (see `toml_refusal`).
pub fn toml_writable(v: &Value) -> (r: ConfigResult<()>)
    ensures
        match toml_refusal(v.model()) {
            None => r is Ok,
            Some(d) => r is Err && r->Err_0.model() == (ErrorModel::UnsupportedOperation {
                format: "TOML"@,
                operation: "save"@,
                detail: d,
            }),
        },
{
    match toml_refusal_exec(v) {
        None => Ok(()),
        Some(d) => Err(ConfigError::UnsupportedOperation {
            format: owned("TOML"),
            operation: owned("save"),
            detail: owned(d),
        }),
    }
}

} // verus!
