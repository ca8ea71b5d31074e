//! Walking a document along a dot path: reading, setting, appending to and removing from
//! the value it addresses.
use vstd::prelude::*;
use crate::value::{Value, ObjectMap, Model, models, lemma_models, obj_get, obj_find, obj_insert, obj_remove, opt_model, lemma_obj_find, lemma_obj_insert_found, values_equal};
use crate::coerce::{
    coerce_values_typed_spec, values_typed_json_consistent, coerce_values_typed_impl, coerce_each, coerce_each_spec,
    values_json_consistent, typed_json_results, scalar_json_results, lemma_json_results_unique,
};
use crate::error::{ConfigError, ConfigResult, ErrorModel};
use crate::path::{join_segments, views, escape, parse_path_spec, parse_path, push_escaped};
use crate::number::{parse_usize_spec, parse_usize};
use crate::render::{debug_text, debug_string};
use crate::keyed::{KeyedList, registration, find_registration};
use crate::text::{chars_of, owned, str_equal};

verus! {

/// The path text of the first `i` segments.
pub open spec fn prefix_path(segs: Seq<Seq<char>>, i: int) -> Seq<char> {
    join_segments(segs.take(i))
}

/// Whether `m` is an object whose `field` holds the string `slug`.
pub open spec fn has_slug(m: Model, field: Seq<char>, slug: Seq<char>) -> bool {
    match m {
        Model::Object(e) => obj_get(e, field) == Some(Model::Str(slug)),
        _ => false,
    }
}

/// The index of the first element of `a` whose `field` holds the string `slug`.
pub open spec fn slug_index(a: Seq<Model>, field: Seq<char>, slug: Seq<char>) -> Option<int>
    decreases a.len(),
{
    if a.len() == 0 {
        None
    } else if has_slug(a[0], field, slug) {
        Some(0)
    } else {
        match slug_index(a.drop_first(), field, slug) {
            Some(i) => Some(i + 1),
            None => None,
        }
    }
}

/// The element of the array `a` at path `prefix` that the segment `seg` addresses: a
/// decimal index when `seg` reads as one, otherwise the element whose registered slug field
/// holds `seg`.
pub open spec fn array_step_spec(a: Seq<Model>, seg: Seq<char>, prefix: Seq<char>, kls: Seq<KeyedList>) -> Result<int, ErrorModel> {
    match parse_usize_spec(seg) {
        Some(n) => if (n as int) < a.len() {
            Ok(n as int)
        } else {
            Err(ErrorModel::IndexOutOfBounds { path: prefix, index: n as nat, len: a.len() })
        },
        None => match registration(kls, prefix) {
            None => Err(ErrorModel::UnregisteredArray { path: prefix }),
            Some(f) => match slug_index(a, f, seg) {
                Some(j) => Ok(j),
                None => Err(ErrorModel::SlugNotFound { prefix, slug: seg }),
            },
        },
    }
}

/// Reading `segs` from segment `i` on, starting at `m`; `full` is the whole path text.
pub open spec fn get_walk(m: Model, segs: Seq<Seq<char>>, i: int, kls: Seq<KeyedList>, full: Seq<char>) -> Result<Model, ErrorModel>
    decreases segs.len() - i,
{
    if i >= segs.len() || i < 0 {
        Ok(m)
    } else {
        let k = segs[i];
        match m {
            Model::Object(e) => match obj_get(e, k) {
                Some(c) => get_walk(c, segs, i + 1, kls, full),
                None => Err(ErrorModel::UnknownSegment { path: full, segment: k }),
            },
            Model::Array(a) => match array_step_spec(a, k, prefix_path(segs, i), kls) {
                Ok(j) => if 0 <= j < a.len() {
                    get_walk(a[j], segs, i + 1, kls, full)
                } else {
                    Ok(m)
                },
                Err(x) => Err(x),
            },
            _ => Err(ErrorModel::NotTraversable { path: full, got: debug_text(m) }),
        }
    }
}

/// What reading the dot path `p` in the document `m` gives.
pub open spec fn get_path_spec(m: Model, p: Seq<char>, kls: Seq<KeyedList>) -> Result<Model, ErrorModel> {
    match parse_path_spec(p) {
        Err(e) => Err(e),
        Ok(segs) => get_walk(m, segs, 0, kls, p),
    }
}

proof fn lemma_join_push(s: Seq<Seq<char>>, x: Seq<char>)
    ensures
        join_segments(s.push(x)) == if s.len() == 0 {
            escape(x)
        } else {
            join_segments(s) + seq!['.'] + escape(x)
        },
    decreases s.len(),
{
    if s.len() == 0 {
        assert(s.push(x) =~= seq![x]);
        assert(join_segments(seq![x]) == escape(x));
    } else if s.len() == 1 {
        assert(s.push(x).drop_first() =~= seq![x]);
        assert(join_segments(seq![x]) == escape(x));
        assert(join_segments(s) == escape(s[0]));
    } else {
        lemma_join_push(s.drop_first(), x);
        assert(s.push(x).drop_first() =~= s.drop_first().push(x));
        assert(join_segments(s) == escape(s[0]) + seq!['.'] + join_segments(s.drop_first()));
        assert(join_segments(s.push(x)) == escape(s[0]) + seq!['.'] + join_segments(s.push(x).drop_first()));
        assert(escape(s[0]) + seq!['.'] + (join_segments(s.drop_first()) + seq!['.'] + escape(x))
            =~= escape(s[0]) + seq!['.'] + join_segments(s.drop_first()) + seq!['.'] + escape(x));
    }
}

/// The prefix path grows by one escaped segment.
pub proof fn lemma_prefix_path_push(segs: Seq<Seq<char>>, i: int)
    requires
        0 <= i < segs.len(),
    ensures
        prefix_path(segs, i + 1) == if i == 0 {
            escape(segs[i])
        } else {
            prefix_path(segs, i) + seq!['.'] + escape(segs[i])
        },
{
    assert(segs.take(i + 1) =~= segs.take(i).push(segs[i]));
    lemma_join_push(segs.take(i), segs[i]);
}

/// Extends the path text of the first `i` segments by the segment `seg`.
fn push_segment(acc: &mut String, i: usize, seg: &str)
    ensures
        final(acc)@ == if i == 0 {
            old(acc)@ + escape(seg@)
        } else {
            old(acc)@ + seq!['.'] + escape(seg@)
        },
{
    if i > 0 {
        acc.push('.');
    }
    push_escaped(acc, seg);
}

/// Whether `v` is an object whose `field` holds the string `slug`.
pub(crate) fn has_slug_exec(v: &Value, field: &str, slug: &str) -> (r: bool)
    ensures
        r == has_slug(v.model(), field@, slug@),
{
    match v {
        Value::Object(o) => match o.get(field) {
            Some(Value::String(s)) => str_equal(s.as_str(), slug),
            _ => false,
        },
        _ => false,
    }
}

/// The index of the first element of `arr` whose `field` holds the string `slug`.
pub(crate) fn find_slug(arr: &Vec<Value>, field: &str, slug: &str) -> (r: Option<usize>)
    ensures
        match slug_index(models(arr@), field@, slug@) {
            Some(j) => r == Some(j as usize),
            None => r is None,
        },
{
    proof {
        lemma_models(arr@);
    }
    let ghost ms = models(arr@);
    let mut i: usize = 0;
    assert(ms.skip(0) =~= ms);
    while i < arr.len()
        invariant
            i <= arr.len(),
            ms == models(arr@),
            ms.len() == arr.len(),
            forall|k: int| 0 <= k < arr.len() ==> #[trigger] ms[k] == arr@[k].model(),
            slug_index(ms, field@, slug@) == match slug_index(ms.skip(i as int), field@, slug@) {
                Some(j) => Some(j + i),
                None => None,
            },
        decreases arr.len() - i,
    {
        if has_slug_exec(&arr[i], field, slug) {
            return Some(i);
        }
        assert(ms.skip(i as int).drop_first() =~= ms.skip(i + 1));
        i = i + 1;
    }
    None
}

/// Resolves the segment `seg` against the array `arr` found at path `prefix`.
fn array_step(arr: &Vec<Value>, seg: &str, prefix: &str, kls: &[KeyedList]) -> (r: Result<usize, ConfigError>)
    ensures
        match array_step_spec(models(arr@), seg@, prefix@, kls@) {
            Ok(j) => r is Ok && r->Ok_0 as int == j && 0 <= j < arr.len(),
            Err(e) => r is Err && r->Err_0.model() == e,
        },
{
    proof {
        lemma_models(arr@);
    }
    let c = chars_of(seg);
    let ghost ms = models(arr@);
    assert(ms.len() == arr.len());
    match parse_usize(c.as_slice()) {
        Some(n) => {
            if n < arr.len() {
                Ok(n)
            } else {
                Err(ConfigError::IndexOutOfBounds { path: owned(prefix), index: n, len: arr.len() })
            }
        },
        None => match find_registration(kls, prefix) {
            None => Err(ConfigError::UnregisteredArray { path: owned(prefix) }),
            Some(field) => match find_slug(arr, field, seg) {
                Some(j) => {
                    proof {
                        lemma_slug_index_bound(models(arr@), field@, seg@);
                    }
                    Ok(j)
                },
                None => Err(ConfigError::SlugNotFound { prefix: owned(prefix), slug: owned(seg) }),
            },
        },
    }
}

proof fn lemma_slug_index_bound(a: Seq<Model>, field: Seq<char>, slug: Seq<char>)
    ensures
        slug_index(a, field, slug) matches Some(j) ==> 0 <= j < a.len() && has_slug(a[j], field, slug),
    decreases a.len(),
{
    if a.len() > 0 {
        lemma_slug_index_bound(a.drop_first(), field, slug);
    }
}

/// Reads the value at a dot path. A segment names an object key, or addresses an array
/// element by decimal index or, for a registered keyed list, by slug.
pub fn get_path(root: &Value, path: &str, keyed_lists: &[KeyedList]) -> (r: ConfigResult<Value>)
    ensures
        match get_path_spec(root.model(), path@, keyed_lists@) {
            Ok(m) => r is Ok && r->Ok_0.model() == m,
            Err(e) => r is Err && r->Err_0.model() == e,
        },
{
    let segs = match parse_path(path) {
        Ok(s) => s,
        Err(e) => return Err(e),
    };
    let ghost sv = views(segs@);
    let mut cur: &Value = root;
    let mut acc = String::new();
    let mut i: usize = 0;
    assert(sv.take(0) =~= Seq::<Seq<char>>::empty());
    while i < segs.len()
        invariant
            i <= segs.len(),
            sv == views(segs@),
            sv.len() == segs.len(),
            acc@ == prefix_path(sv, i as int),
            get_path_spec(root.model(), path@, keyed_lists@) == get_walk(cur.model(), sv, i as int, keyed_lists@, path@),
        decreases segs.len() - i,
    {
        let k = segs[i].as_str();
        assert(sv[i as int] == k@);
        match cur {
            Value::Object(obj) => match obj.get(k) {
                Some(c) => {
                    cur = c;
                },
                None => {
                    return Err(ConfigError::UnknownSegment { path: owned(path), segment: owned(k) });
                },
            },
            Value::Array(arr) => match array_step(arr, k, acc.as_str(), keyed_lists) {
                Ok(j) => {
                    proof {
                        lemma_models(arr@);
                    }
                    cur = &arr[j];
                },
                Err(e) => {
                    return Err(e);
                },
            },
            _ => {
                return Err(ConfigError::NotTraversable { path: owned(path), got: debug_string(cur) });
            },
        }
        proof {
            lemma_prefix_path_push(sv, i as int);
            assert(Seq::<char>::empty() + escape(k@) =~= escape(k@));
        }
        push_segment(&mut acc, i, k);
        i = i + 1;
    }
    Ok(cur.deep_clone())
}


/// Where setting along `segs` from segment `i` on lands, starting at `m`: the value already
/// there (`None` when absent), or the error that stops the walk. Missing object keys on the
/// way are no error: empty objects will be created for them.
pub open spec fn set_target(m: Model, segs: Seq<Seq<char>>, i: int, kls: Seq<KeyedList>) -> Result<Option<Model>, ErrorModel>
    decreases segs.len() - i,
{
    if i >= segs.len() || i < 0 {
        Err(ErrorModel::EmptyPath)
    } else {
        let k = segs[i];
        let last = i + 1 == segs.len();
        match m {
            Model::Object(e) => match obj_get(e, k) {
                Some(c) => if last {
                    Ok(Some(c))
                } else {
                    set_target(c, segs, i + 1, kls)
                },
                None => if last {
                    Ok(None)
                } else {
                    set_target(Model::Object(Seq::empty()), segs, i + 1, kls)
                },
            },
            Model::Array(a) => match array_step_spec(a, k, prefix_path(segs, i), kls) {
                Err(x) => Err(x),
                Ok(j) => if !(0 <= j < a.len()) {
                    Err(ErrorModel::EmptyPath)
                } else if !last {
                    set_target(a[j], segs, i + 1, kls)
                } else if parse_usize_spec(k) is Some {
                    Ok(Some(a[j]))
                } else {
                    match a[j] {
                        Model::Object(e2) => Ok(obj_get(e2, k)),
                        _ => Err(ErrorModel::NotTraversable { path: k, got: debug_text(a[j]) }),
                    }
                },
            },
            _ => Err(ErrorModel::NotTraversable { path: prefix_path(segs, i), got: debug_text(m) }),
        }
    }
}

/// The document after storing `nv` where setting along `segs` from segment `i` on lands:
/// missing object keys get empty objects, an array element is replaced, and the last step
/// into a keyed-list element stores `nv` in that element under the slug's name.
pub open spec fn set_put(m: Model, segs: Seq<Seq<char>>, i: int, kls: Seq<KeyedList>, nv: Model) -> Model
    decreases segs.len() - i,
{
    if i >= segs.len() || i < 0 {
        m
    } else {
        let k = segs[i];
        let last = i + 1 == segs.len();
        match m {
            Model::Object(e) => if last {
                Model::Object(obj_insert(e, k, nv))
            } else {
                let c = match obj_get(e, k) {
                    Some(c) => c,
                    None => Model::Object(Seq::empty()),
                };
                Model::Object(obj_insert(e, k, set_put(c, segs, i + 1, kls, nv)))
            },
            Model::Array(a) => match array_step_spec(a, k, prefix_path(segs, i), kls) {
                Ok(j) => if !(0 <= j < a.len()) {
                    m
                } else if !last {
                    Model::Array(a.update(j, set_put(a[j], segs, i + 1, kls, nv)))
                } else if parse_usize_spec(k) is Some {
                    Model::Array(a.update(j, nv))
                } else {
                    match a[j] {
                        Model::Object(e2) => Model::Array(a.update(j, Model::Object(obj_insert(e2, k, nv)))),
                        _ => m,
                    }
                },
                Err(_) => m,
            },
            _ => m,
        }
    }
}

/// The outcome of setting the dot path `p` of document `m` to the CLI strings `vals`,
/// given the JSON parse results `js` of the coercion.
pub open spec fn set_path_spec(m: Model, p: Seq<char>, vals: Seq<Seq<char>>, kls: Seq<KeyedList>, js: Seq<Option<Model>>) -> Result<Model, ErrorModel> {
    match parse_path_spec(p) {
        Err(e) => Err(e),
        Ok(segs) => match set_target(m, segs, 0, kls) {
            Err(e) => Err(e),
            Ok(t) => match coerce_values_typed_spec(vals, t, js) {
                Err(e) => Err(e),
                Ok(nv) => Ok(set_put(m, segs, 0, kls, nv)),
            },
        },
    }
}

/// `js` is what the JSON parser gave for the texts that coercion toward the set target
/// handed to it.
pub open spec fn set_json_ok(m: Model, p: Seq<char>, vals: Seq<Seq<char>>, kls: Seq<KeyedList>, js: Seq<Option<Model>>) -> bool {
    match parse_path_spec(p) {
        Ok(segs) => match set_target(m, segs, 0, kls) {
            Ok(t) => values_typed_json_consistent(vals, t, js),
            Err(_) => true,
        },
        Err(_) => true,
    }
}

/// Below a missing key only empty objects are walked: the set lands on nothing.
proof fn lemma_set_target_empty(segs: Seq<Seq<char>>, i: int, kls: Seq<KeyedList>)
    requires
        0 <= i < segs.len(),
    ensures
        set_target(Model::Object(Seq::empty()), segs, i, kls) == Ok::<Option<Model>, ErrorModel>(None),
    decreases segs.len() - i,
{
    assert(obj_find(Seq::<(Seq<char>, Model)>::empty(), segs[i]) is None);
    if i + 1 < segs.len() {
        lemma_set_target_empty(segs, i + 1, kls);
    }
}

/// Finds where a set along `segs` lands.
fn set_locate<'a>(root: &'a Value, segs: &Vec<String>, kls: &[KeyedList]) -> (r: Result<Option<&'a Value>, ConfigError>)
    requires
        segs.len() >= 1,
    ensures
        match set_target(root.model(), views(segs@), 0, kls@) {
            Ok(t) => r is Ok && opt_model(r->Ok_0) == t,
            Err(e) => r is Err && r->Err_0.model() == e,
        },
{
    let ghost sv = views(segs@);
    let mut cur: &Value = root;
    let mut acc = String::new();
    let mut i: usize = 0;
    assert(sv.take(0) =~= Seq::<Seq<char>>::empty());
    loop
        invariant
            i < segs.len(),
            sv == views(segs@),
            sv.len() == segs.len(),
            acc@ == prefix_path(sv, i as int),
            set_target(root.model(), sv, 0, kls@) == set_target(cur.model(), sv, i as int, kls@),
        decreases segs.len() - i,
    {
        let k = segs[i].as_str();
        let last = i + 1 == segs.len();
        assert(sv[i as int] == k@);
        match cur {
            Value::Object(obj) => match obj.get(k) {
                Some(c) => {
                    if last {
                        return Ok(Some(c));
                    }
                    cur = c;
                },
                None => {
                    proof {
                        if !last {
                            lemma_set_target_empty(sv, i + 1, kls@);
                        }
                    }
                    return Ok(None);
                },
            },
            Value::Array(arr) => {
                proof {
                    lemma_models(arr@);
                }
                match array_step(arr, k, acc.as_str(), kls) {
                    Ok(j) => {
                        if last {
                            let c = chars_of(k);
                            if parse_usize(c.as_slice()).is_some() {
                                return Ok(Some(&arr[j]));
                            }
                            match &arr[j] {
                                Value::Object(o) => {
                                    return Ok(o.get(k));
                                },
                                other => {
                                    return Err(ConfigError::NotTraversable { path: owned(k), got: debug_string(other) });
                                },
                            }
                        }
                        cur = &arr[j];
                    },
                    Err(e) => {
                        return Err(e);
                    },
                }
            },
            _ => {
                return Err(ConfigError::NotTraversable { path: copy_acc(&acc), got: debug_string(cur) });
            },
        }
        proof {
            lemma_prefix_path_push(sv, i as int);
            assert(Seq::<char>::empty() + escape(k@) =~= escape(k@));
        }
        push_segment(&mut acc, i, k);
        i = i + 1;
    }
}

fn copy_acc(s: &String) -> (r: String)
    ensures
        r@ == s@,
{
    crate::text::copy_string(s)
}

/// Stores `nv` where a set along `segs` from segment `i` on lands; `prefix` is the path
/// text of the first `i` segments.
fn set_store(v: Value, segs: &Vec<String>, i: usize, prefix: &String, kls: &[KeyedList], nv: Value) -> (r: Value)
    requires
        i < segs.len(),
        prefix@ == prefix_path(views(segs@), i as int),
        set_target(v.model(), views(segs@), i as int, kls@) is Ok,
    ensures
        r.model() == set_put(v.model(), views(segs@), i as int, kls@, nv.model()),
    decreases segs.len() - i,
{
    let ghost sv = views(segs@);
    let k = segs[i].as_str();
    let last = i + 1 == segs.len();
    assert(sv[i as int] == k@);
    let mut next = crate::text::copy_string(prefix);
    push_segment(&mut next, i, k);
    proof {
        if i + 1 < segs.len() {
            lemma_prefix_path_push(sv, i as int);
            assert(Seq::<char>::empty() + escape(k@) =~= escape(k@));
        }
    }
    match v {
        Value::Object(mut obj) => {
            if last {
                obj.insert(owned(k), nv);
                return Value::Object(obj);
            }
            let kc = chars_of(k);
            match obj.find(kc.as_slice()) {
                Some(idx) => {
                    proof {
                        use_type_invariant(&obj);
                        lemma_obj_find(obj@, k@);
                    }
                    let ghost before = obj@;
                    let child = obj.take_at(idx);
                    let c2 = set_store(child, segs, i + 1, &next, kls, nv);
                    proof {
                        lemma_obj_insert_found(before, k@, c2.model(), idx as int);
                    }
                    obj.replace_at(idx, c2);
                    proof {
                        assert(obj@ =~= before.update(idx as int, (k@, c2.model())));
                    }
                    Value::Object(obj)
                },
                None => {
                    proof {
                        lemma_set_target_empty(sv, i + 1, kls@);
                    }
                    let fresh = Value::Object(ObjectMap::new());
                    let c2 = set_store(fresh, segs, i + 1, &next, kls, nv);
                    obj.insert(owned(k), c2);
                    Value::Object(obj)
                },
            }
        },
        Value::Array(mut arr) => {
            proof {
                lemma_models(arr@);
            }
            match array_step(&arr, k, prefix.as_str(), kls) {
                Ok(j) => {
                    let ghost ms = models(arr@);
                    if !last {
                        let mut child = Value::Null;
                        arr.set_and_swap(j, &mut child);
                        let c2 = set_store(child, segs, i + 1, &next, kls, nv);
                        arr.set(j, c2);
                        proof {
                            lemma_models(arr@);
                            assert(models(arr@) =~= ms.update(j as int, c2.model()));
                        }
                        return Value::Array(arr);
                    }
                    let c = chars_of(k);
                    if parse_usize(c.as_slice()).is_some() {
                        arr.set(j, nv);
                        proof {
                            lemma_models(arr@);
                            assert(models(arr@) =~= ms.update(j as int, nv.model()));
                        }
                        return Value::Array(arr);
                    }
                    let mut elem = Value::Null;
                    arr.set_and_swap(j, &mut elem);
                    match elem {
                        Value::Object(mut o) => {
                            o.insert(owned(k), nv);
                            let e2 = Value::Object(o);
                            let ghost em = e2.model();
                            arr.set(j, e2);
                            proof {
                                lemma_models(arr@);
                                assert(models(arr@) =~= ms.update(j as int, em));
                            }
                            Value::Array(arr)
                        },
                        other => {
                            arr.set(j, other);
                            proof {
                                lemma_models(arr@);
                                assert(models(arr@) =~= ms);
                            }
                            Value::Array(arr)
                        },
                    }
                },
                Err(_) => Value::Array(arr),
            }
        },
        other => other,
    }
}

/// The parse results that setting `p` to `vals` uses: those of type-directed coercion
/// toward the set target (none when the path or the target is refused).
pub open spec fn set_json_results(m: Model, p: Seq<char>, vals: Seq<Seq<char>>, kls: Seq<KeyedList>) -> Seq<Option<Model>> {
    match parse_path_spec(p) {
        Ok(segs) => match set_target(m, segs, 0, kls) {
            Ok(t) => typed_json_results(vals, t),
            Err(_) => Seq::empty(),
        },
        Err(_) => Seq::empty(),
    }
}

/// Parse results consistent with a set are the ones parsing gives.
proof fn lemma_set_json_results(m: Model, p: Seq<char>, vals: Seq<Seq<char>>, kls: Seq<KeyedList>, js: Seq<Option<Model>>)
    requires
        set_json_ok(m, p, vals, kls, js),
    ensures
        set_path_spec(m, p, vals, kls, js) == set_path_spec(m, p, vals, kls, set_json_results(m, p, vals, kls)),
{
    if let Ok(segs) = parse_path_spec(p) {
        if let Ok(t) = set_target(m, segs, 0, kls) {
            lemma_json_results_unique(vals, t, js);
        }
    }
}

/// Sets the value at a dot path from CLI strings, coerced toward the type of the value
/// already there; missing object keys on the way are created as objects. On error the
/// document is left unchanged.
pub fn set_path(root: &mut Value, path: &str, values: &[String], keyed_lists: &[KeyedList]) -> (r: ConfigResult<()>)
    ensures
        match set_path_spec(
            old(root).model(),
            path@,
            views(values@),
            keyed_lists@,
            set_json_results(old(root).model(), path@, views(values@), keyed_lists@),
        ) {
            Ok(m) => r is Ok && final(root).model() == m,
            Err(e) => r is Err && r->Err_0.model() == e && final(root).model() == old(root).model(),
        },
{
    let ghost m0 = root.model();
    let r = set_path_run(root, path, values, keyed_lists);
    proof {
        let js = choose|js: Seq<Option<Model>>|
            #![trigger set_path_spec(m0, path@, views(values@), keyed_lists@, js)]
            set_json_ok(m0, path@, views(values@), keyed_lists@, js) && match set_path_spec(
                m0,
                path@,
                views(values@),
                keyed_lists@,
                js,
            ) {
                Ok(m) => r is Ok && root.model() == m,
                Err(e) => r is Err && r->Err_0.model() == e && root.model() == m0,
            };
        lemma_set_json_results(m0, path@, views(values@), keyed_lists@, js);
    }
    r
}

/// The work of `set_path`, stated over parse results consistent with the texts.
fn set_path_run(root: &mut Value, path: &str, values: &[String], keyed_lists: &[KeyedList]) -> (r: ConfigResult<()>)
    ensures
        exists|js: Seq<Option<Model>>|
            #![trigger set_path_spec(old(root).model(), path@, views(values@), keyed_lists@, js)]
            set_json_ok(old(root).model(), path@, views(values@), keyed_lists@, js) && match set_path_spec(
                old(root).model(),
                path@,
                views(values@),
                keyed_lists@,
                js,
            ) {
                Ok(m) => r is Ok && final(root).model() == m,
                Err(e) => r is Err && r->Err_0.model() == e && final(root).model() == old(root).model(),
            },
{
    let ghost old_m = root.model();
    let segs = match parse_path(path) {
        Ok(s) => s,
        Err(e) => {
            assert(set_json_ok(old_m, path@, views(values@), keyed_lists@, Seq::empty()));
            assert(set_path_spec(old_m, path@, views(values@), keyed_lists@, Seq::empty()) == Err::<Model, ErrorModel>(e.model()));
            return Err(e);
        },
    };
    proof {
        crate::path::lemma_split_path_nonempty(path@);
    }
    let (nv, js) = match set_locate(root, &segs, keyed_lists) {
        Err(e) => {
            assert(set_json_ok(old_m, path@, views(values@), keyed_lists@, Seq::empty()));
            assert(set_path_spec(old_m, path@, views(values@), keyed_lists@, Seq::empty()) == Err::<Model, ErrorModel>(e.model()));
            return Err(e);
        },
        Ok(t) => coerce_values_typed_impl(values, t),
    };
    let nv = match nv {
        Ok(v) => v,
        Err(e) => {
            assert(set_json_ok(old_m, path@, views(values@), keyed_lists@, js@));
            assert(set_path_spec(old_m, path@, views(values@), keyed_lists@, js@) == Err::<Model, ErrorModel>(e.model()));
            return Err(e);
        },
    };
    let mut taken = Value::Null;
    std::mem::swap(&mut taken, root);
    let empty = String::new();
    assert(views(segs@).take(0) =~= Seq::<Seq<char>>::empty());
    let stored = set_store(taken, &segs, 0, &empty, keyed_lists, nv);
    *root = stored;
    assert(set_json_ok(old_m, path@, views(values@), keyed_lists@, js@));
    assert(set_path_spec(old_m, path@, views(values@), keyed_lists@, js@) == Ok::<Model, ErrorModel>(root.model()));
    Ok(())
}

/// Appending `items` to the array at `segs` from segment `i` on, starting at `m`: missing
/// keys on the way become objects and a missing array is created. Only objects are walked.
pub open spec fn add_walk(m: Model, segs: Seq<Seq<char>>, i: int, items: Seq<Model>) -> Result<Model, ErrorModel>
    decreases segs.len() - i,
{
    if i >= segs.len() || i < 0 {
        Err(ErrorModel::EmptyPath)
    } else {
        let k = segs[i];
        match m {
            Model::Object(e) => if i + 1 == segs.len() {
                match obj_get(e, k) {
                    None => Ok(Model::Object(obj_insert(e, k, Model::Array(items)))),
                    Some(Model::Array(a)) => Ok(Model::Object(obj_insert(e, k, Model::Array(a + items)))),
                    Some(other) => Err(ErrorModel::NotTraversable { path: k, got: debug_text(other) }),
                }
            } else {
                let c = match obj_get(e, k) {
                    Some(c) => c,
                    None => Model::Object(Seq::empty()),
                };
                match add_walk(c, segs, i + 1, items) {
                    Ok(c2) => Ok(Model::Object(obj_insert(e, k, c2))),
                    Err(x) => Err(x),
                }
            },
            _ => Err(ErrorModel::NotTraversable { path: prefix_path(segs, i), got: debug_text(m) }),
        }
    }
}

/// The outcome of appending the CLI strings `vals` to the array at the dot path `p`, given
/// the JSON parse results `js` of their coercion.
pub open spec fn add_scalar_spec(m: Model, p: Seq<char>, vals: Seq<Seq<char>>, js: Seq<Option<Model>>) -> Result<Model, ErrorModel> {
    match parse_path_spec(p) {
        Err(e) => Err(e),
        Ok(segs) => add_walk(m, segs, 0, coerce_each_spec(vals, js)),
    }
}

proof fn lemma_models_append(a: Seq<Value>, b: Seq<Value>)
    ensures
        models(a + b) == models(a) + models(b),
{
    lemma_models(a);
    lemma_models(b);
    lemma_models(a + b);
    assert(models(a + b) =~= models(a) + models(b));
}

/// Appends `items` where `segs` from segment `i` on leads; on error `v` comes back as it was.
fn add_store(v: Value, segs: &Vec<String>, i: usize, prefix: &String, items: Vec<Value>) -> (r: (Value, ConfigResult<()>))
    requires
        i < segs.len(),
        prefix@ == prefix_path(views(segs@), i as int),
    ensures
        match add_walk(v.model(), views(segs@), i as int, models(items@)) {
            Ok(m) => r.1 is Ok && r.0.model() == m,
            Err(e) => r.1 is Err && r.1->Err_0.model() == e && r.0.model() == v.model(),
        },
    decreases segs.len() - i,
{
    let ghost sv = views(segs@);
    let ghost its = models(items@);
    let k = segs[i].as_str();
    assert(sv[i as int] == k@);
    match v {
        Value::Object(mut obj) => {
            let kc = chars_of(k);
            let ghost before = obj@;
            proof {
                use_type_invariant(&obj);
                lemma_obj_find(obj@, k@);
            }
            if i + 1 == segs.len() {
                match obj.find(kc.as_slice()) {
                    None => {
                        obj.insert(owned(k), Value::Array(items));
                        (Value::Object(obj), Ok(()))
                    },
                    Some(idx) => {
                        if obj.value_at(idx).is_array() {
                            let taken = obj.take_at(idx);
                            match taken {
                                Value::Array(mut a) => {
                                    let ghost a_old = a@;
                                    let mut more = items;
                                    a.append(&mut more);
                                    proof {
                                        lemma_models_append(a_old, items@);
                                    }
                                    let ghost nm = models(a@);
                                    obj.replace_at(idx, Value::Array(a));
                                    proof {
                                        lemma_obj_insert_found(before, k@, Model::Array(nm), idx as int);
                                        assert(obj@ =~= before.update(idx as int, (k@, Model::Array(nm))));
                                    }
                                    (Value::Object(obj), Ok(()))
                                },
                                other => {
                                    obj.replace_at(idx, other);
                                    proof {
                                        assert(obj@ =~= before);
                                    }
                                    (Value::Object(obj), Ok(()))
                                },
                            }
                        } else {
                            let got = debug_string(obj.value_at(idx));
                            (Value::Object(obj), Err(ConfigError::NotTraversable { path: owned(k), got }))
                        }
                    },
                }
            } else {
                let mut next = crate::text::copy_string(prefix);
                push_segment(&mut next, i, k);
                proof {
                    lemma_prefix_path_push(sv, i as int);
                    assert(Seq::<char>::empty() + escape(k@) =~= escape(k@));
                }
                match obj.find(kc.as_slice()) {
                    Some(idx) => {
                        let child = obj.take_at(idx);
                        let (c2, res) = add_store(child, segs, i + 1, &next, items);
                        let ghost cm = c2.model();
                        obj.replace_at(idx, c2);
                        proof {
                            lemma_obj_insert_found(before, k@, cm, idx as int);
                            assert(obj@ =~= before.update(idx as int, (k@, cm)));
                            if res is Err {
                                assert(obj@ =~= before);
                            }
                        }
                        (Value::Object(obj), res)
                    },
                    None => {
                        let fresh = Value::Object(ObjectMap::new());
                        let (c2, res) = add_store(fresh, segs, i + 1, &next, items);
                        if res.is_ok() {
                            obj.insert(owned(k), c2);
                        }
                        (Value::Object(obj), res)
                    },
                }
            }
        },
        other => {
            let got = debug_string(&other);
            (other, Err(ConfigError::NotTraversable { path: crate::text::copy_string(prefix), got }))
        },
    }
}

/// Appends CLI strings, each coerced by shape, to the array at a dot path; a missing array
/// is created, and missing object keys on the way become objects. On error the document is
/// left unchanged.
pub fn add_scalar(root: &mut Value, path: &str, values: &[String]) -> (r: ConfigResult<()>)
    ensures
        match add_scalar_spec(old(root).model(), path@, views(values@), scalar_json_results(views(values@))) {
            Ok(m) => r is Ok && final(root).model() == m,
            Err(e) => r is Err && r->Err_0.model() == e && final(root).model() == old(root).model(),
        },
{
    let ghost m0 = root.model();
    let r = add_scalar_run(root, path, values);
    proof {
        let js = choose|js: Seq<Option<Model>>|
            #![trigger add_scalar_spec(m0, path@, views(values@), js)]
            values_json_consistent(views(values@), js) && match add_scalar_spec(m0, path@, views(values@), js) {
                Ok(m) => r is Ok && root.model() == m,
                Err(e) => r is Err && r->Err_0.model() == e && root.model() == m0,
            };
        lemma_json_results_unique(views(values@), None, js);
    }
    r
}

/// The work of `add_scalar`, stated over parse results consistent with the texts.
fn add_scalar_run(root: &mut Value, path: &str, values: &[String]) -> (r: ConfigResult<()>)
    ensures
        exists|js: Seq<Option<Model>>|
            #![trigger add_scalar_spec(old(root).model(), path@, views(values@), js)]
            values_json_consistent(views(values@), js) && match add_scalar_spec(old(root).model(), path@, views(values@), js) {
                Ok(m) => r is Ok && final(root).model() == m,
                Err(e) => r is Err && r->Err_0.model() == e && final(root).model() == old(root).model(),
            },
{
    let ghost old_m = root.model();
    let (items, js) = coerce_each(values);
    let segs = match parse_path(path) {
        Ok(s) => s,
        Err(e) => {
            assert(add_scalar_spec(old_m, path@, views(values@), js@) == Err::<Model, ErrorModel>(e.model()));
            return Err(e);
        },
    };
    proof {
        crate::path::lemma_split_path_nonempty(path@);
    }
    let mut taken = Value::Null;
    std::mem::swap(&mut taken, root);
    let empty = String::new();
    assert(views(segs@).take(0) =~= Seq::<Seq<char>>::empty());
    let (back, res) = add_store(taken, &segs, 0, &empty, items);
    *root = back;
    assert(add_scalar_spec(old_m, path@, views(values@), js@) == add_walk(old_m, views(segs@), 0, coerce_each_spec(views(values@), js@)));
    res
}

/// The elements of `a` that equal none of `items`, in order.
pub open spec fn without_items(a: Seq<Model>, items: Seq<Model>) -> Seq<Model>
    decreases a.len(),
{
    if a.len() == 0 {
        a
    } else if items.contains(a.last()) {
        without_items(a.drop_last(), items)
    } else {
        without_items(a.drop_last(), items).push(a.last())
    }
}

/// Removing the elements equal to any of `items` from the array at `segs` from segment `i`
/// on, starting at `m`. Only objects are walked and every key must exist.
pub open spec fn remove_scalar_walk(m: Model, segs: Seq<Seq<char>>, i: int, items: Seq<Model>) -> Result<Model, ErrorModel>
    decreases segs.len() - i,
{
    if i >= segs.len() || i < 0 {
        Err(ErrorModel::EmptyPath)
    } else {
        let k = segs[i];
        match m {
            Model::Object(e) => if i + 1 == segs.len() {
                match obj_get(e, k) {
                    None => Err(ErrorModel::PathNotFound { path: k }),
                    Some(Model::Array(a)) => Ok(Model::Object(obj_insert(e, k, Model::Array(without_items(a, items))))),
                    Some(other) => Err(ErrorModel::NotTraversable { path: k, got: debug_text(other) }),
                }
            } else {
                match obj_get(e, k) {
                    None => Err(ErrorModel::PathNotFound { path: prefix_path(segs, i + 1) }),
                    Some(c) => match remove_scalar_walk(c, segs, i + 1, items) {
                        Ok(c2) => Ok(Model::Object(obj_insert(e, k, c2))),
                        Err(x) => Err(x),
                    },
                }
            },
            _ => Err(ErrorModel::NotTraversable { path: prefix_path(segs, i), got: debug_text(m) }),
        }
    }
}

/// The outcome of removing from the array at the dot path `p` every element equal to one of
/// the CLI strings `vals` coerced by shape, given the JSON parse results `js`.
pub open spec fn remove_scalar_spec(m: Model, p: Seq<char>, vals: Seq<Seq<char>>, js: Seq<Option<Model>>) -> Result<Model, ErrorModel> {
    match parse_path_spec(p) {
        Err(e) => Err(e),
        Ok(segs) => remove_scalar_walk(m, segs, 0, coerce_each_spec(vals, js)),
    }
}

/// Whether some value in `items` equals `v`.
fn contains_value(items: &Vec<Value>, v: &Value) -> (r: bool)
    ensures
        r == models(items@).contains(v.model()),
{
    proof {
        lemma_models(items@);
    }
    let mut i: usize = 0;
    while i < items.len()
        invariant
            i <= items.len(),
            models(items@).len() == items.len(),
            forall|j: int| 0 <= j < items.len() ==> #[trigger] models(items@)[j] == items@[j].model(),
            forall|j: int| 0 <= j < i ==> models(items@)[j] != v.model(),
        decreases items.len() - i,
    {
        if values_equal(&items[i], v) {
            assert(models(items@)[i as int] == v.model());
            return true;
        }
        i = i + 1;
    }
    false
}

/// Keeps the elements of `a` that equal none of `items`.
fn retain_unmatched(a: Vec<Value>, items: &Vec<Value>) -> (r: Vec<Value>)
    ensures
        models(r@) == without_items(models(a@), models(items@)),
{
    proof {
        lemma_models(a@);
    }
    let ghost am = models(a@);
    let mut out: Vec<Value> = Vec::new();
    let mut rest = a;
    let mut taken: Vec<Value> = Vec::new();
    let mut i: usize = 0;
    let n = rest.len();
    while i < n
        invariant
            i <= n,
            n == rest.len(),
            am.len() == n,
            forall|j: int| i <= j < n ==> #[trigger] rest@[j].model() == am[j],
            models(out@) == without_items(am.take(i as int), models(items@)),
        decreases n - i,
    {
        let mut x = Value::Null;
        rest.set_and_swap(i, &mut x);
        let keep = !contains_value(items, &x);
        proof {
            assert(am.take(i + 1).drop_last() =~= am.take(i as int));
            assert(am.take(i + 1).last() == am[i as int]);
            lemma_models(out@);
        }
        if keep {
            let ghost before = out@;
            out.push(x);
            proof {
                lemma_models(out@);
                lemma_models(before);
                assert(models(out@) =~= models(before).push(am[i as int]));
            }
        }
        i = i + 1;
    }
    assert(am.take(n as int) =~= am);
    out
}

/// Removes values where `segs` from segment `i` on leads; on error `v` comes back as it was.
fn remove_scalar_store(v: Value, segs: &Vec<String>, i: usize, prefix: &String, items: &Vec<Value>) -> (r: (Value, ConfigResult<()>))
    requires
        i < segs.len(),
        prefix@ == prefix_path(views(segs@), i as int),
    ensures
        match remove_scalar_walk(v.model(), views(segs@), i as int, models(items@)) {
            Ok(m) => r.1 is Ok && r.0.model() == m,
            Err(e) => r.1 is Err && r.1->Err_0.model() == e && r.0.model() == v.model(),
        },
    decreases segs.len() - i,
{
    let ghost sv = views(segs@);
    let k = segs[i].as_str();
    assert(sv[i as int] == k@);
    match v {
        Value::Object(mut obj) => {
            let kc = chars_of(k);
            let ghost before = obj@;
            proof {
                use_type_invariant(&obj);
                lemma_obj_find(obj@, k@);
            }
            let mut next = crate::text::copy_string(prefix);
            push_segment(&mut next, i, k);
            proof {
                lemma_prefix_path_push(sv, i as int);
                assert(Seq::<char>::empty() + escape(k@) =~= escape(k@));
            }
            match obj.find(kc.as_slice()) {
                None => {
                    if i + 1 == segs.len() {
                        (Value::Object(obj), Err(ConfigError::PathNotFound { path: owned(k) }))
                    } else {
                        (Value::Object(obj), Err(ConfigError::PathNotFound { path: next }))
                    }
                },
                Some(idx) => {
                    if i + 1 == segs.len() {
                        if obj.value_at(idx).is_array() {
                            let taken = obj.take_at(idx);
                            match taken {
                                Value::Array(a) => {
                                    let kept = retain_unmatched(a, items);
                                    let ghost nm = models(kept@);
                                    obj.replace_at(idx, Value::Array(kept));
                                    proof {
                                        lemma_obj_insert_found(before, k@, Model::Array(nm), idx as int);
                                        assert(obj@ =~= before.update(idx as int, (k@, Model::Array(nm))));
                                    }
                                    (Value::Object(obj), Ok(()))
                                },
                                other => {
                                    obj.replace_at(idx, other);
                                    proof {
                                        assert(obj@ =~= before);
                                    }
                                    (Value::Object(obj), Ok(()))
                                },
                            }
                        } else {
                            let got = debug_string(obj.value_at(idx));
                            (Value::Object(obj), Err(ConfigError::NotTraversable { path: owned(k), got }))
                        }
                    } else {
                        let child = obj.take_at(idx);
                        let (c2, res) = remove_scalar_store(child, segs, i + 1, &next, items);
                        let ghost cm = c2.model();
                        obj.replace_at(idx, c2);
                        proof {
                            lemma_obj_insert_found(before, k@, cm, idx as int);
                            assert(obj@ =~= before.update(idx as int, (k@, cm)));
                            if res is Err {
                                assert(obj@ =~= before);
                            }
                        }
                        (Value::Object(obj), res)
                    }
                },
            }
        },
        other => {
            let got = debug_string(&other);
            (other, Err(ConfigError::NotTraversable { path: crate::text::copy_string(prefix), got }))
        },
    }
}

/// Removes from the array at a dot path every element equal to one of the CLI strings,
/// each coerced by shape. On error the document is left unchanged.
pub fn remove_scalar(root: &mut Value, path: &str, values: &[String]) -> (r: ConfigResult<()>)
    ensures
        match remove_scalar_spec(old(root).model(), path@, views(values@), scalar_json_results(views(values@))) {
            Ok(m) => r is Ok && final(root).model() == m,
            Err(e) => r is Err && r->Err_0.model() == e && final(root).model() == old(root).model(),
        },
{
    let ghost m0 = root.model();
    let r = remove_scalar_run(root, path, values);
    proof {
        let js = choose|js: Seq<Option<Model>>|
            #![trigger remove_scalar_spec(m0, path@, views(values@), js)]
            values_json_consistent(views(values@), js) && match remove_scalar_spec(m0, path@, views(values@), js) {
                Ok(m) => r is Ok && root.model() == m,
                Err(e) => r is Err && r->Err_0.model() == e && root.model() == m0,
            };
        lemma_json_results_unique(views(values@), None, js);
    }
    r
}

/// The work of `remove_scalar`, stated over parse results consistent with the texts.
fn remove_scalar_run(root: &mut Value, path: &str, values: &[String]) -> (r: ConfigResult<()>)
    ensures
        exists|js: Seq<Option<Model>>|
            #![trigger remove_scalar_spec(old(root).model(), path@, views(values@), js)]
            values_json_consistent(views(values@), js) && match remove_scalar_spec(old(root).model(), path@, views(values@), js) {
                Ok(m) => r is Ok && final(root).model() == m,
                Err(e) => r is Err && r->Err_0.model() == e && final(root).model() == old(root).model(),
            },
{
    let ghost old_m = root.model();
    let (items, js) = coerce_each(values);
    let segs = match parse_path(path) {
        Ok(s) => s,
        Err(e) => {
            assert(remove_scalar_spec(old_m, path@, views(values@), js@) == Err::<Model, ErrorModel>(e.model()));
            return Err(e);
        },
    };
    proof {
        crate::path::lemma_split_path_nonempty(path@);
    }
    let mut taken = Value::Null;
    std::mem::swap(&mut taken, root);
    let empty = String::new();
    assert(views(segs@).take(0) =~= Seq::<Seq<char>>::empty());
    let (back, res) = remove_scalar_store(taken, &segs, 0, &empty, &items);
    *root = back;
    assert(remove_scalar_spec(old_m, path@, views(values@), js@) == remove_scalar_walk(old_m, views(segs@), 0, coerce_each_spec(views(values@), js@)));
    res
}

/// Removing what `segs` from segment `i` on addresses, starting at `m`: an object key or an
/// array element by decimal index; every step must exist.
pub open spec fn remove_path_walk(m: Model, segs: Seq<Seq<char>>, i: int) -> Result<Model, ErrorModel>
    decreases segs.len() - i,
{
    if i >= segs.len() || i < 0 {
        Err(ErrorModel::EmptyPath)
    } else {
        let k = segs[i];
        let last = i + 1 == segs.len();
        match m {
            Model::Object(e) => match obj_get(e, k) {
                None => if last {
                    Err(ErrorModel::PathNotFound { path: k })
                } else {
                    Err(ErrorModel::PathNotFound { path: prefix_path(segs, i + 1) })
                },
                Some(c) => if last {
                    Ok(Model::Object(obj_remove(e, k)))
                } else {
                    match remove_path_walk(c, segs, i + 1) {
                        Ok(c2) => Ok(Model::Object(obj_insert(e, k, c2))),
                        Err(x) => Err(x),
                    }
                },
            },
            Model::Array(a) => match parse_usize_spec(k) {
                Some(n) => if (n as int) >= a.len() {
                    Err(ErrorModel::IndexOutOfBounds { path: prefix_path(segs, i), index: n as nat, len: a.len() })
                } else if last {
                    Ok(Model::Array(a.remove(n as int)))
                } else {
                    match remove_path_walk(a[n as int], segs, i + 1) {
                        Ok(c2) => Ok(Model::Array(a.update(n as int, c2))),
                        Err(x) => Err(x),
                    }
                },
                None => Err(ErrorModel::UnregisteredArray { path: prefix_path(segs, i) }),
            },
            _ => Err(ErrorModel::NotTraversable { path: prefix_path(segs, i), got: debug_text(m) }),
        }
    }
}

/// The outcome of removing what the dot path `p` addresses in the document `m`.
pub open spec fn remove_path_spec(m: Model, p: Seq<char>) -> Result<Model, ErrorModel> {
    match parse_path_spec(p) {
        Err(e) => Err(e),
        Ok(segs) => remove_path_walk(m, segs, 0),
    }
}

/// Removes what `segs` from segment `i` on addresses; on error `v` comes back as it was.
fn remove_path_store(v: Value, segs: &Vec<String>, i: usize, prefix: &String) -> (r: (Value, ConfigResult<()>))
    requires
        i < segs.len(),
        prefix@ == prefix_path(views(segs@), i as int),
    ensures
        match remove_path_walk(v.model(), views(segs@), i as int) {
            Ok(m) => r.1 is Ok && r.0.model() == m,
            Err(e) => r.1 is Err && r.1->Err_0.model() == e && r.0.model() == v.model(),
        },
    decreases segs.len() - i,
{
    let ghost sv = views(segs@);
    let k = segs[i].as_str();
    let last = i + 1 == segs.len();
    assert(sv[i as int] == k@);
    let mut next = crate::text::copy_string(prefix);
    push_segment(&mut next, i, k);
    proof {
        lemma_prefix_path_push(sv, i as int);
        assert(Seq::<char>::empty() + escape(k@) =~= escape(k@));
    }
    match v {
        Value::Object(mut obj) => {
            let kc = chars_of(k);
            let ghost before = obj@;
            proof {
                use_type_invariant(&obj);
                lemma_obj_find(obj@, k@);
            }
            match obj.find(kc.as_slice()) {
                None => {
                    if last {
                        (Value::Object(obj), Err(ConfigError::PathNotFound { path: owned(k) }))
                    } else {
                        (Value::Object(obj), Err(ConfigError::PathNotFound { path: next }))
                    }
                },
                Some(idx) => {
                    if last {
                        let _gone = obj.remove(k);
                        (Value::Object(obj), Ok(()))
                    } else {
                        let child = obj.take_at(idx);
                        let (c2, res) = remove_path_store(child, segs, i + 1, &next);
                        let ghost cm = c2.model();
                        obj.replace_at(idx, c2);
                        proof {
                            lemma_obj_insert_found(before, k@, cm, idx as int);
                            assert(obj@ =~= before.update(idx as int, (k@, cm)));
                            if res is Err {
                                assert(obj@ =~= before);
                            }
                        }
                        (Value::Object(obj), res)
                    }
                },
            }
        },
        Value::Array(mut arr) => {
            proof {
                lemma_models(arr@);
            }
            let ghost ms = models(arr@);
            let c = chars_of(k);
            match parse_usize(c.as_slice()) {
                Some(n) => {
                    if n >= arr.len() {
                        let len = arr.len();
                        (Value::Array(arr), Err(ConfigError::IndexOutOfBounds { path: crate::text::copy_string(prefix), index: n, len }))
                    } else if last {
                        let _gone = arr.remove(n);
                        proof {
                            lemma_models(arr@);
                            assert(models(arr@) =~= ms.remove(n as int));
                        }
                        (Value::Array(arr), Ok(()))
                    } else {
                        let mut child = Value::Null;
                        arr.set_and_swap(n, &mut child);
                        let (c2, res) = remove_path_store(child, segs, i + 1, &next);
                        let ghost cm = c2.model();
                        arr.set(n, c2);
                        proof {
                            lemma_models(arr@);
                            assert(models(arr@) =~= ms.update(n as int, cm));
                            if res is Err {
                                assert(models(arr@) =~= ms);
                            }
                        }
                        (Value::Array(arr), res)
                    }
                },
                None => (Value::Array(arr), Err(ConfigError::UnregisteredArray { path: crate::text::copy_string(prefix) })),
            }
        },
        other => {
            let got = debug_string(&other);
            (other, Err(ConfigError::NotTraversable { path: crate::text::copy_string(prefix), got }))
        },
    }
}

/// Removes the object key or array element that a dot path addresses. On error the document
/// is left unchanged.
pub fn remove_path(root: &mut Value, path: &str) -> (r: ConfigResult<()>)
    ensures
        match remove_path_spec(old(root).model(), path@) {
            Ok(m) => r is Ok && final(root).model() == m,
            Err(e) => r is Err && r->Err_0.model() == e && final(root).model() == old(root).model(),
        },
{
    let segs = match parse_path(path) {
        Ok(s) => s,
        Err(e) => return Err(e),
    };
    proof {
        crate::path::lemma_split_path_nonempty(path@);
    }
    let mut taken = Value::Null;
    std::mem::swap(&mut taken, root);
    let empty = String::new();
    assert(views(segs@).take(0) =~= Seq::<Seq<char>>::empty());
    let (back, res) = remove_path_store(taken, &segs, 0, &empty);
    *root = back;
    res
}

} // verus!
