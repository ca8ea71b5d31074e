//! Coerce CLI string arguments to Value.
use vstd::prelude::*;
use crate::value::{Value, Model, opt_model};
use crate::error::{ConfigError, ConfigResult, ErrorModel};
use crate::text::{lower, lower_seq, to_lower, string_of, chars_of, trim_end, is_whitespace, is_ws};
use crate::number::{parse_i64_spec, parse_u64_spec, parse_bool_spec, float_literal, parse_i64, parse_u64, parse_bool, is_float_literal};
use crate::json::{json_error, json_parse_model, parse_json_text};
use crate::path::views;

verus! {

/// Whether `s` starts with the type prefix `c:`.
pub open spec fn has_type_prefix(s: Seq<char>, c: char) -> bool {
    s.len() >= 2 && s[0] == c && s[1] == ':'
}

/// The `b:` texts that mean true: `true`, `yes`, `on` (in any case) and `1`.
pub open spec fn truthy(t: Seq<char>) -> bool {
    let l = lower_seq(t);
    l == seq!['t', 'r', 'u', 'e'] || l == seq!['y', 'e', 's'] || l == seq!['o', 'n'] || l == seq!['1']
}

/// The value an explicit type prefix asks for: `s:` a string, `b:` a bool, `i:` an integer,
/// `j:` the JSON value `j` that the rest parses to; the whole text as a string when the
/// rest does not parse. `None` without a prefix.
pub open spec fn explicit_prefix_spec(s: Seq<char>, j: Option<Model>) -> Option<Model> {
    if has_type_prefix(s, 's') {
        Some(Model::Str(s.skip(2)))
    } else if has_type_prefix(s, 'b') {
        Some(Model::Bool(truthy(s.skip(2))))
    } else if has_type_prefix(s, 'i') {
        Some(
            match parse_i64_spec(s.skip(2)) {
                Some(i) => Model::Integer(i),
                None => Model::Str(s),
            },
        )
    } else if has_type_prefix(s, 'j') {
        Some(
            match j {
                Some(m) => m,
                None => Model::Str(s),
            },
        )
    } else {
        None
    }
}

/// Whether `s` has the shape of a JSON array or object literal: it starts with `[` or `{`
/// and, without trailing whitespace, ends with `]` or `}`.
pub open spec fn json_shaped(s: Seq<char>) -> bool {
    &&& s.len() > 0
    &&& (s[0] == '[' || s[0] == '{')
    &&& trim_end(s).len() > 0
    &&& (trim_end(s).last() == ']' || trim_end(s).last() == '}')
}

/// A JSON literal becomes the value `j` it parses to; anything else stays a string.
pub open spec fn json_or_string_spec(s: Seq<char>, j: Option<Model>) -> Model {
    if json_shaped(s) && j is Some {
        j.unwrap()
    } else {
        Model::Str(s)
    }
}

pub open spec fn is_null_text(s: Seq<char>) -> bool {
    lower_seq(s) == seq!['n', 'u', 'l', 'l']
}

/// Shape-based coercion: an explicit prefix wins, then `null`/`true`/`false` in any case,
/// an integer (`Unsigned` when it is above `i64::MAX` and fits `u64`), a floating-point
/// number (kept as its text), a JSON literal, a string.
pub open spec fn coerce_scalar_spec(s: Seq<char>, j: Option<Model>) -> Model {
    match explicit_prefix_spec(s, j) {
        Some(m) => m,
        None => if is_null_text(s) {
            Model::Null
        } else if lower_seq(s) == seq!['t', 'r', 'u', 'e'] {
            Model::Bool(true)
        } else if lower_seq(s) == seq!['f', 'a', 'l', 's', 'e'] {
            Model::Bool(false)
        } else {
            match parse_i64_spec(s) {
                Some(i) => Model::Integer(i),
                None => match parse_u64_spec(s) {
                    Some(u) => Model::Unsigned(u),
                    None => if float_literal(s) {
                        Model::Float(s)
                    } else {
                        json_or_string_spec(s, j)
                    },
                },
            }
        },
    }
}

/// The text that shape-based coercion of `s` hands to the JSON parser, if any.
pub open spec fn scalar_json_text(s: Seq<char>) -> Option<Seq<char>> {
    if has_type_prefix(s, 'j') {
        Some(s.skip(2))
    } else if has_type_prefix(s, 's') || has_type_prefix(s, 'b') || has_type_prefix(s, 'i') {
        None
    } else if is_null_text(s) || lower_seq(s) == seq!['t', 'r', 'u', 'e'] || lower_seq(s) == seq![
        'f',
        'a',
        'l',
        's',
        'e',
    ] || parse_i64_spec(s) is Some || parse_u64_spec(s) is Some || float_literal(s) {
        None
    } else if json_shaped(s) {
        Some(s)
    } else {
        None
    }
}

/// Type-directed coercion toward the value `existing` already at the target: an explicit
/// prefix wins and `null` in any case clears; a bool, integer, unsigned or float target
/// parses the text into that type (a string when it does not parse); a string target keeps
/// the text; any other target takes a JSON literal or a string; with no target, shape-based
/// coercion.
pub open spec fn coerce_typed_spec(s: Seq<char>, existing: Option<Model>, j: Option<Model>) -> Model {
    match explicit_prefix_spec(s, j) {
        Some(m) => m,
        None => if is_null_text(s) {
            Model::Null
        } else {
            match existing {
                Some(Model::Bool(_)) => match parse_bool_spec(s) {
                    Some(b) => Model::Bool(b),
                    None => Model::Str(s),
                },
                Some(Model::Integer(_)) => match parse_i64_spec(s) {
                    Some(i) => Model::Integer(i),
                    None => Model::Str(s),
                },
                Some(Model::Unsigned(_)) => match parse_u64_spec(s) {
                    Some(u) => Model::Unsigned(u),
                    None => Model::Str(s),
                },
                Some(Model::Float(_)) => if float_literal(s) {
                    Model::Float(s)
                } else {
                    Model::Str(s)
                },
                Some(Model::Str(_)) => Model::Str(s),
                Some(_) => json_or_string_spec(s, j),
                None => coerce_scalar_spec(s, j),
            }
        },
    }
}

/// The text that type-directed coercion of `s` hands to the JSON parser, if any.
pub open spec fn typed_json_text(s: Seq<char>, existing: Option<Model>) -> Option<Seq<char>> {
    if has_type_prefix(s, 'j') {
        Some(s.skip(2))
    } else if has_type_prefix(s, 's') || has_type_prefix(s, 'b') || has_type_prefix(s, 'i') {
        None
    } else if is_null_text(s) {
        None
    } else {
        match existing {
            Some(Model::Bool(_)) | Some(Model::Integer(_)) | Some(Model::Unsigned(_)) | Some(
                Model::Float(_),
            ) | Some(Model::Str(_)) => None,
            Some(_) => if json_shaped(s) {
                Some(s)
            } else {
                None
            },
            None => scalar_json_text(s),
        }
    }
}

/// `j` is what parsing the text handed to the JSON parser gives (see `json_parse_model`),
/// and nothing when no text was handed over.
pub open spec fn json_consistent(text: Option<Seq<char>>, j: Option<Model>) -> bool {
    match text {
        Some(t) => j == json_parse_model(t),
        None => j is None,
    }
}

/// What parsing the text handed to the JSON parser gives, if a text was handed over.
pub open spec fn json_result(text: Option<Seq<char>>) -> Option<Model> {
    match text {
        Some(t) => json_parse_model(t),
        None => None,
    }
}

/// The parse results that shape-based coercion of `values` uses, one per value.
pub open spec fn scalar_json_results(values: Seq<Seq<char>>) -> Seq<Option<Model>> {
    Seq::new(values.len(), |i: int| json_result(scalar_json_text(values[i])))
}

/// The parse results that type-directed coercion of `values` toward `existing` uses.
pub open spec fn typed_json_results(values: Seq<Seq<char>>, existing: Option<Model>) -> Seq<Option<Model>> {
    Seq::new(values.len(), |i: int| json_result(typed_json_text(values[i], value_target(values.len(), existing))))
}

/// The parse results consistent with the texts are exactly these: coercion takes no
/// other result for a text than what parsing it gives.
pub proof fn lemma_json_results_unique(values: Seq<Seq<char>>, existing: Option<Model>, js: Seq<Option<Model>>)
    ensures
        values_json_consistent(values, js) <==> js == scalar_json_results(values),
        values_typed_json_consistent(values, existing, js) <==> js == typed_json_results(values, existing),
{
    if values_json_consistent(values, js) {
        assert forall|i: int| 0 <= i < js.len() implies js[i] == scalar_json_results(values)[i] by {
            assert(json_consistent(scalar_json_text(values[i]), js[i]));
        }
        assert(js =~= scalar_json_results(values));
    }
    if js == scalar_json_results(values) {
        assert forall|i: int| 0 <= i < values.len() implies #[trigger] json_consistent(scalar_json_text(values[i]), js[i]) by {}
    }
    if values_typed_json_consistent(values, existing, js) {
        assert forall|i: int| 0 <= i < js.len() implies js[i] == typed_json_results(values, existing)[i] by {
            assert(json_consistent(typed_json_text(values[i], value_target(values.len(), existing)), js[i]));
        }
        assert(js =~= typed_json_results(values, existing));
    }
    if js == typed_json_results(values, existing) {
        assert forall|i: int| 0 <= i < values.len() implies #[trigger] json_consistent(
            typed_json_text(values[i], value_target(values.len(), existing)),
            js[i],
        ) by {}
    }
}

/// The element type that a multi-value target suggests: the first element of an array;
/// a string when no element type is known.
pub open spec fn elem_existing(existing: Option<Model>) -> Option<Model> {
    match existing {
        Some(Model::Array(a)) => if a.len() > 0 {
            Some(a[0])
        } else {
            Some(Model::Str(Seq::empty()))
        },
        _ => Some(Model::Str(Seq::empty())),
    }
}

/// The target that the `i`th of `n` values is coerced toward.
pub open spec fn value_target(n: nat, existing: Option<Model>) -> Option<Model> {
    if n == 1 {
        existing
    } else {
        elem_existing(existing)
    }
}

/// Type-directed coercion of several values: none is an error, one is a scalar, more
/// become an array whose elements are coerced toward the existing array's first element,
/// or toward a string when the target is no array with an element.
pub open spec fn coerce_values_typed_spec(
    values: Seq<Seq<char>>,
    existing: Option<Model>,
    js: Seq<Option<Model>>,
) -> Result<Model, ErrorModel> {
    if values.len() == 0 {
        Err(ErrorModel::EmptyValues)
    } else if values.len() == 1 {
        Ok(coerce_typed_spec(values[0], existing, js[0]))
    } else {
        Ok(
            Model::Array(
                Seq::new(
                    values.len(),
                    |i: int| coerce_typed_spec(values[i], elem_existing(existing), js[i]),
                ),
            ),
        )
    }
}

pub open spec fn values_typed_json_consistent(
    values: Seq<Seq<char>>,
    existing: Option<Model>,
    js: Seq<Option<Model>>,
) -> bool {
    &&& js.len() == values.len()
    &&& forall|i: int|
        0 <= i < values.len() ==> #[trigger] json_consistent(
            typed_json_text(values[i], value_target(values.len(), existing)),
            js[i],
        )
}

/// Shape-based coercion of several values.
pub open spec fn coerce_values_spec(values: Seq<Seq<char>>, js: Seq<Option<Model>>) -> Result<Model, ErrorModel> {
    if values.len() == 0 {
        Err(ErrorModel::EmptyValues)
    } else if values.len() == 1 {
        Ok(coerce_scalar_spec(values[0], js[0]))
    } else {
        Ok(Model::Array(Seq::new(values.len(), |i: int| coerce_scalar_spec(values[i], js[i]))))
    }
}

pub open spec fn values_json_consistent(values: Seq<Seq<char>>, js: Seq<Option<Model>>) -> bool {
    &&& js.len() == values.len()
    &&& forall|i: int| 0 <= i < values.len() ==> #[trigger] json_consistent(scalar_json_text(values[i]), js[i])
}

fn lower_chars(s: &[char], from: usize) -> (r: Vec<char>)
    requires
        from <= s.len(),
    ensures
        r@ == lower_seq(s@.skip(from as int)),
{
    let ghost t = s@.skip(from as int);
    let mut r: Vec<char> = Vec::new();
    let mut i = from;
    while i < s.len()
        invariant
            from <= i <= s.len(),
            t == s@.skip(from as int),
            r@ == lower_seq(t.take(i - from)),
        decreases s.len() - i,
    {
        r.push(to_lower(s[i]));
        assert(lower_seq(t.take(i + 1 - from)) =~= lower_seq(t.take(i - from)).push(lower(s@[i as int])));
        i = i + 1;
    }
    assert(t.take(s.len() - from) =~= t);
    r
}

fn is_word(l: &Vec<char>, w: &[char]) -> (r: bool)
    ensures
        r == (l@ == w@),
{
    crate::text::chars_equal(l.as_slice(), w)
}

fn skip_chars(s: &[char], from: usize) -> (r: Vec<char>)
    requires
        from <= s.len(),
    ensures
        r@ == s@.skip(from as int),
{
    let mut r: Vec<char> = Vec::new();
    let mut i = from;
    while i < s.len()
        invariant
            from <= i <= s.len(),
            r@ == s@.subrange(from as int, i as int),
        decreases s.len() - i,
    {
        r.push(s[i]);
        assert(s@.subrange(from as int, i + 1) =~= s@.subrange(from as int, i as int).push(s@[i as int]));
        i = i + 1;
    }
    assert(s@.subrange(from as int, s.len() as int) =~= s@.skip(from as int));
    r
}

/// Parses JSON text given as characters.
fn json_of(t: &[char]) -> (r: (Option<Value>, Ghost<Option<Model>>))
    ensures
        r.0 is Some <==> json_error(t@) is None,
        r.1@ == json_parse_model(t@),
        r.1@ == (match r.0 {
            Some(v) => Some(v.model()),
            None => None,
        }),
{
    let text = string_of(t);
    let v = parse_json_text(text.as_str());
    let ghost g = match &v {
        Some(x) => Some(x.model()),
        None => None,
    };
    (v, Ghost(g))
}

/// The value an explicit type prefix asks for, with the JSON parse result it used.
fn explicit_prefix(s: &[char]) -> (r: (Option<Value>, Ghost<Option<Model>>))
    ensures
        json_consistent(if has_type_prefix(s@, 'j') { Some(s@.skip(2)) } else { None }, r.1@),
        match explicit_prefix_spec(s@, r.1@) {
            Some(m) => r.0 is Some && r.0.unwrap().model() == m,
            None => r.0 is None,
        },
{
    if s.len() >= 2 && s[1] == ':' {
        let c = s[0];
        if c == 's' {
            let rest = skip_chars(s, 2);
            return (Some(Value::String(string_of(rest.as_slice()))), Ghost(None));
        } else if c == 'b' {
            let l = lower_chars(s, 2);
            let t = is_word(&l, &['t', 'r', 'u', 'e']) || is_word(&l, &['y', 'e', 's']) || is_word(&l, &['o', 'n'])
                || is_word(&l, &['1']);
            proof {
                assert(['t', 'r', 'u', 'e']@ =~= seq!['t', 'r', 'u', 'e']);
                assert(['y', 'e', 's']@ =~= seq!['y', 'e', 's']);
                assert(['o', 'n']@ =~= seq!['o', 'n']);
                assert(['1']@ =~= seq!['1']);
            }
            return (Some(Value::Bool(t)), Ghost(None));
        } else if c == 'i' {
            let rest = skip_chars(s, 2);
            return match parse_i64(rest.as_slice()) {
                Some(i) => (Some(Value::Integer(i)), Ghost(None)),
                None => (Some(Value::String(string_of(s))), Ghost(None)),
            };
        } else if c == 'j' {
            let rest = skip_chars(s, 2);
            let (v, g) = json_of(rest.as_slice());
            return match v {
                Some(x) => (Some(x), g),
                None => (Some(Value::String(string_of(s))), g),
            };
        }
    }
    (None, Ghost(None))
}

/// Whether the characters have the shape of a JSON array or object literal.
fn is_json_shaped(s: &[char]) -> (r: bool)
    ensures
        r == json_shaped(s@),
{
    if s.len() == 0 || !(s[0] == '[' || s[0] == '{') {
        return false;
    }
    let mut e = s.len();
    assert(s@.take(s.len() as int) =~= s@);
    while e > 0 && is_whitespace(s[e - 1])
        invariant
            e <= s.len(),
            trim_end(s@) == trim_end(s@.take(e as int)),
        decreases e,
    {
        assert(s@.take(e as int).drop_last() =~= s@.take(e - 1));
        e = e - 1;
    }
    proof {
        assert(s@.take(s.len() as int) =~= s@);
        if e > 0 {
            assert(!is_ws(s@.take(e as int).last()));
        }
        assert(trim_end(s@) == s@.take(e as int));
    }
    e > 0 && (s[e - 1] == ']' || s[e - 1] == '}')
}

/// A JSON literal parsed, anything else kept as a string.
fn json_or_string(s: &[char]) -> (r: (Value, Ghost<Option<Model>>))
    ensures
        json_consistent(if json_shaped(s@) { Some(s@) } else { None }, r.1@),
        r.0.model() == json_or_string_spec(s@, r.1@),
{
    if is_json_shaped(s) {
        let (v, g) = json_of(s);
        match v {
            Some(x) => (x, g),
            None => (Value::String(string_of(s)), g),
        }
    } else {
        (Value::String(string_of(s)), Ghost(None))
    }
}

pub(crate) fn coerce_scalar_chars(s: &[char]) -> (r: (Value, Ghost<Option<Model>>))
    ensures
        json_consistent(scalar_json_text(s@), r.1@),
        r.0.model() == coerce_scalar_spec(s@, r.1@),
{
    let (p, g) = explicit_prefix(s);
    if let Some(v) = p {
        return (v, g);
    }
    let l = lower_chars(s, 0);
    assert(s@.skip(0) =~= s@);
    if is_word(&l, &['n', 'u', 'l', 'l']) {
        assert(['n', 'u', 'l', 'l']@ =~= seq!['n', 'u', 'l', 'l']);
        return (Value::Null, Ghost(None));
    }
    assert(['n', 'u', 'l', 'l']@ =~= seq!['n', 'u', 'l', 'l']);
    if is_word(&l, &['t', 'r', 'u', 'e']) {
        assert(['t', 'r', 'u', 'e']@ =~= seq!['t', 'r', 'u', 'e']);
        return (Value::Bool(true), Ghost(None));
    }
    assert(['t', 'r', 'u', 'e']@ =~= seq!['t', 'r', 'u', 'e']);
    if is_word(&l, &['f', 'a', 'l', 's', 'e']) {
        assert(['f', 'a', 'l', 's', 'e']@ =~= seq!['f', 'a', 'l', 's', 'e']);
        return (Value::Bool(false), Ghost(None));
    }
    assert(['f', 'a', 'l', 's', 'e']@ =~= seq!['f', 'a', 'l', 's', 'e']);
    if let Some(i) = parse_i64(s) {
        return (Value::Integer(i), Ghost(None));
    }
    if let Some(u) = parse_u64(s) {
        return (Value::Unsigned(u), Ghost(None));
    }
    if is_float_literal(s) {
        return (Value::Float(string_of(s)), Ghost(None));
    }
    json_or_string(s)
}

fn coerce_typed_chars(s: &[char], existing: Option<&Value>) -> (r: (Value, Ghost<Option<Model>>))
    ensures
        json_consistent(
            typed_json_text(
                s@,
                opt_model(existing),
            ),
            r.1@,
        ),
        r.0.model() == coerce_typed_spec(
            s@,
            opt_model(existing),
            r.1@,
        ),
{
    let (p, g) = explicit_prefix(s);
    if let Some(v) = p {
        return (v, g);
    }
    let l = lower_chars(s, 0);
    assert(s@.skip(0) =~= s@);
    assert(['n', 'u', 'l', 'l']@ =~= seq!['n', 'u', 'l', 'l']);
    if is_word(&l, &['n', 'u', 'l', 'l']) {
        return (Value::Null, Ghost(None));
    }
    match existing {
        Some(Value::Bool(_)) => match parse_bool(s) {
            Some(b) => (Value::Bool(b), Ghost(None)),
            None => (Value::String(string_of(s)), Ghost(None)),
        },
        Some(Value::Integer(_)) => match parse_i64(s) {
            Some(i) => (Value::Integer(i), Ghost(None)),
            None => (Value::String(string_of(s)), Ghost(None)),
        },
        Some(Value::Unsigned(_)) => match parse_u64(s) {
            Some(u) => (Value::Unsigned(u), Ghost(None)),
            None => (Value::String(string_of(s)), Ghost(None)),
        },
        Some(Value::Float(_)) => if is_float_literal(s) {
            (Value::Float(string_of(s)), Ghost(None))
        } else {
            (Value::String(string_of(s)), Ghost(None))
        },
        Some(Value::String(_)) => (Value::String(string_of(s)), Ghost(None)),
        Some(_) => json_or_string(s),
        None => coerce_scalar_chars(s),
    }
}

/// Shape-based coercion with no type context: an explicit prefix wins, otherwise
/// `null`/`true`/`false`/integer/float/JSON are recognized by shape, falling back to a string.
/// Case is ignored for ASCII letters only; no other character lowercases to the letters of
/// these words.
pub fn coerce_scalar(s: &str) -> (r: Value)
    ensures
        r.model() == coerce_scalar_spec(s@, json_result(scalar_json_text(s@))),
{
    let c = chars_of(s);
    let (v, g) = coerce_scalar_chars(c.as_slice());
    v
}

/// Coerces a single CLI string toward the type already present at the target.
pub fn coerce_scalar_typed(s: &str, existing: Option<&Value>) -> (r: Value)
    ensures
        r.model() == coerce_typed_spec(s@, opt_model(existing), json_result(typed_json_text(s@, opt_model(existing)))),
{
    let c = chars_of(s);
    let (v, g) = coerce_typed_chars(c.as_slice(), existing);
    v
}

/// Type-directed coercion of several values, with the JSON parse results it used.
pub(crate) fn coerce_values_typed_impl(values: &[String], existing: Option<&Value>) -> (r: (
    ConfigResult<Value>,
    Ghost<Seq<Option<Model>>>,
))
    ensures
        values_typed_json_consistent(views(values@), opt_model(existing), r.1@),
        match coerce_values_typed_spec(views(values@), opt_model(existing), r.1@) {
            Ok(m) => r.0 is Ok && r.0->Ok_0.model() == m,
            Err(e) => r.0 is Err && r.0->Err_0.model() == e,
        },
{
    let ghost vs = views(values@);
    if values.len() == 0 {
        return (Err(ConfigError::EmptyValues), Ghost(Seq::empty()));
    }
    if values.len() == 1 {
        let c = chars_of(values[0].as_str());
        let (v, g) = coerce_typed_chars(c.as_slice(), existing);
        let ghost js = seq![g@];
        assert(vs[0] == values@[0]@);
        assert(json_consistent(typed_json_text(vs[0], value_target(vs.len(), opt_model(existing))), js[0]));
        return (Ok(v), Ghost(js));
    }
    let unknown = Value::String(String::new());
    let elem: Option<&Value> = match existing {
        Some(Value::Array(a)) => if a.len() > 0 {
            Some(&a[0])
        } else {
            Some(&unknown)
        },
        _ => Some(&unknown),
    };
    proof {
        if let Some(Value::Array(a)) = existing {
            crate::value::lemma_models(a@);
        }
        assert(opt_model(elem) == elem_existing(opt_model(existing)));
    }
    let mut out: Vec<Value> = Vec::new();
    let ghost mut js: Seq<Option<Model>> = Seq::empty();
    let mut i: usize = 0;
    while i < values.len()
        invariant
            i <= values.len(),
            vs == views(values@),
            opt_model(elem) == elem_existing(opt_model(existing)),
            values.len() > 1,
            out@.len() == i,
            js.len() == i,
            forall|k: int|
                0 <= k < i ==> #[trigger] json_consistent(
                    typed_json_text(vs[k], value_target(vs.len(), opt_model(existing))),
                    js[k],
                ) && out@[k].model() == coerce_typed_spec(vs[k], elem_existing(opt_model(existing)), js[k]),
        decreases values.len() - i,
    {
        let c = chars_of(values[i].as_str());
        let (v, g) = coerce_typed_chars(c.as_slice(), elem);
        out.push(v);
        proof {
            js = js.push(g@);
            assert(vs[i as int] == values@[i as int]@);
        }
        i = i + 1;
    }
    proof {
        crate::value::lemma_models(out@);
        assert forall|k: int| 0 <= k < vs.len() implies crate::value::models(out@)[k] == coerce_typed_spec(
            vs[k],
            elem_existing(opt_model(existing)),
            js[k],
        ) by {
            assert(json_consistent(typed_json_text(vs[k], value_target(vs.len(), opt_model(existing))), js[k]));
        }
        assert(crate::value::models(out@) =~= Seq::new(
            vs.len(),
            |k: int| coerce_typed_spec(vs[k], elem_existing(opt_model(existing)), js[k]),
        ));
    }
    (Ok(Value::Array(out)), Ghost(js))
}

/// Type-directed coercion of a CLI value slice toward the type at `existing`: an empty
/// slice is an error, one value is coerced as a scalar, several become an array whose
/// elements are coerced toward the existing array's first element (a string when unknown).
pub fn coerce_values_typed(values: &[String], existing: Option<&Value>) -> (r: ConfigResult<Value>)
    ensures
        match coerce_values_typed_spec(
            views(values@),
            opt_model(existing),
            typed_json_results(views(values@), opt_model(existing)),
        ) {
            Ok(m) => r is Ok && r->Ok_0.model() == m,
            Err(e) => r is Err && r->Err_0.model() == e,
        },
{
    let (r, g) = coerce_values_typed_impl(values, existing);
    proof {
        lemma_json_results_unique(views(values@), opt_model(existing), g@);
    }
    r
}

/// Shape-based coercion of several values, with the JSON parse results it used.
pub(crate) fn coerce_values_impl(values: &[String]) -> (r: (ConfigResult<Value>, Ghost<Seq<Option<Model>>>))
    ensures
        values_json_consistent(views(values@), r.1@),
        match coerce_values_spec(views(values@), r.1@) {
            Ok(m) => r.0 is Ok && r.0->Ok_0.model() == m,
            Err(e) => r.0 is Err && r.0->Err_0.model() == e,
        },
{
    let ghost vs = views(values@);
    if values.len() == 0 {
        return (Err(ConfigError::EmptyValues), Ghost(Seq::empty()));
    }
    if values.len() == 1 {
        let c = chars_of(values[0].as_str());
        let (v, g) = coerce_scalar_chars(c.as_slice());
        let ghost js = seq![g@];
        assert(vs[0] == values@[0]@);
        return (Ok(v), Ghost(js));
    }
    let mut out: Vec<Value> = Vec::new();
    let ghost mut js: Seq<Option<Model>> = Seq::empty();
    let mut i: usize = 0;
    while i < values.len()
        invariant
            i <= values.len(),
            vs == views(values@),
            out@.len() == i,
            js.len() == i,
            forall|k: int|
                0 <= k < i ==> #[trigger] json_consistent(scalar_json_text(vs[k]), js[k])
                    && out@[k].model() == coerce_scalar_spec(vs[k], js[k]),
        decreases values.len() - i,
    {
        let c = chars_of(values[i].as_str());
        let (v, g) = coerce_scalar_chars(c.as_slice());
        out.push(v);
        proof {
            js = js.push(g@);
            assert(vs[i as int] == values@[i as int]@);
        }
        i = i + 1;
    }
    proof {
        crate::value::lemma_models(out@);
        assert forall|k: int| 0 <= k < vs.len() implies crate::value::models(out@)[k] == coerce_scalar_spec(
            vs[k],
            js[k],
        ) by {
            assert(json_consistent(scalar_json_text(vs[k]), js[k]));
        }
        assert(crate::value::models(out@) =~= Seq::new(vs.len(), |k: int| coerce_scalar_spec(vs[k], js[k])));
    }
    (Ok(Value::Array(out)), Ghost(js))
}

/// Shape-based coercion of a CLI value slice: an empty slice is an error, one value is
/// coerced as a scalar, several become an array of coerced values.
pub fn coerce_values(values: &[String]) -> (r: ConfigResult<Value>)
    ensures
        match coerce_values_spec(views(values@), scalar_json_results(views(values@))) {
            Ok(m) => r is Ok && r->Ok_0.model() == m,
            Err(e) => r is Err && r->Err_0.model() == e,
        },
{
    let (r, g) = coerce_values_impl(values);
    proof {
        lemma_json_results_unique(views(values@), None, g@);
    }
    r
}

/// Shape-based coercion of each value on its own.
pub open spec fn coerce_each_spec(values: Seq<Seq<char>>, js: Seq<Option<Model>>) -> Seq<Model> {
    Seq::new(values.len(), |i: int| coerce_scalar_spec(values[i], js[i]))
}

/// Coerces each CLI string on its own by shape, with the JSON parse results it used.
pub(crate) fn coerce_each(values: &[String]) -> (r: (Vec<Value>, Ghost<Seq<Option<Model>>>))
    ensures
        values_json_consistent(views(values@), r.1@),
        crate::value::models(r.0@) == coerce_each_spec(views(values@), r.1@),
{
    let ghost vs = views(values@);
    let mut out: Vec<Value> = Vec::new();
    let ghost mut js: Seq<Option<Model>> = Seq::empty();
    let mut i: usize = 0;
    while i < values.len()
        invariant
            i <= values.len(),
            vs == views(values@),
            out@.len() == i,
            js.len() == i,
            forall|k: int|
                0 <= k < i ==> #[trigger] json_consistent(scalar_json_text(vs[k]), js[k])
                    && out@[k].model() == coerce_scalar_spec(vs[k], js[k]),
        decreases values.len() - i,
    {
        let c = chars_of(values[i].as_str());
        let (v, g) = coerce_scalar_chars(c.as_slice());
        out.push(v);
        proof {
            js = js.push(g@);
            assert(vs[i as int] == values@[i as int]@);
        }
        i = i + 1;
    }
    proof {
        crate::value::lemma_models(out@);
        assert forall|k: int| 0 <= k < vs.len() implies crate::value::models(out@)[k] == coerce_scalar_spec(
            vs[k],
            js[k],
        ) by {
            assert(json_consistent(scalar_json_text(vs[k]), js[k]));
        }
        assert(crate::value::models(out@) =~= coerce_each_spec(vs, js));
    }
    (out, Ghost(js))
}

} // verus!
