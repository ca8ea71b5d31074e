//! Keyed lists: arrays whose elements are addressed by the value of a slug field.
use vstd::prelude::*;
use crate::text::{str_equal, chars_of, owned, copy_string, push_str};
use crate::value::{Value, ObjectMap, Model, models, lemma_models, obj_get, obj_insert, lemma_obj_find, lemma_obj_insert_found};
use crate::error::{ConfigError, ConfigResult, ErrorModel};
use crate::path::{join_segments, views, parse_path_spec, parse_path};
use crate::coerce::{coerce_scalar_spec, scalar_json_text, json_consistent, json_result, coerce_scalar_chars};
use crate::traverse::{has_slug, slug_index};

verus! {

/// Declares that the array at `prefix` is keyed by `slug_field`: the path
/// `identities.me.email` reaches the element whose `identity` field holds the string `me`
/// when `identities` is registered with slug field `identity`, then its `email`.
#[derive(Debug, Clone, Copy)]
pub struct KeyedList {
    pub prefix: &'static str,
    pub slug_field: &'static str,
}

/// The slug field of the first registration for the array at `prefix`.
pub open spec fn registration(kls: Seq<KeyedList>, prefix: Seq<char>) -> Option<Seq<char>>
    decreases kls.len(),
{
    if kls.len() == 0 {
        None
    } else if kls[0].prefix@ == prefix {
        Some(kls[0].slug_field@)
    } else {
        registration(kls.drop_first(), prefix)
    }
}

/// The slug field registered for the array at `prefix`.
pub fn find_registration(kls: &[KeyedList], prefix: &str) -> (r: Option<&'static str>)
    ensures
        match registration(kls@, prefix@) {
            Some(f) => r is Some && r.unwrap()@ == f,
            None => r is None,
        },
{
    let mut i: usize = 0;
    assert(kls@.skip(0) =~= kls@);
    while i < kls.len()
        invariant
            i <= kls.len(),
            registration(kls@, prefix@) == registration(kls@.skip(i as int), prefix@),
        decreases kls.len() - i,
    {
        let kl = kls[i];
        if str_equal(kl.prefix, prefix) {
            return Some(kl.slug_field);
        }
        assert(kls@.skip(i as int).drop_first() =~= kls@.skip(i + 1));
        i = i + 1;
    }
    None
}

/// Inserting the entries of `s` in order, skipping the key `field`.
pub open spec fn seed_layer(s: Seq<(Seq<char>, Model)>, field: Seq<char>) -> Seq<(Seq<char>, Model)>
    decreases s.len(),
{
    if s.len() == 0 {
        Seq::empty()
    } else {
        let r = seed_layer(s.drop_last(), field);
        if s.last().0 == field {
            r
        } else {
            obj_insert(r, s.last().0, s.last().1)
        }
    }
}

/// Inserting the entries of `fields` in order into `acc`, skipping the key `field`.
pub open spec fn fields_layer(acc: Seq<(Seq<char>, Model)>, fields: Seq<(Seq<char>, Model)>, field: Seq<char>) -> Seq<(Seq<char>, Model)>
    decreases fields.len(),
{
    if fields.len() == 0 {
        acc
    } else {
        let r = fields_layer(acc, fields.drop_last(), field);
        if fields.last().0 == field {
            r
        } else {
            obj_insert(r, fields.last().0, fields.last().1)
        }
    }
}

/// The entries of a new keyed-list element: the seed's fields when the seed is an object,
/// then the slug under `field`, then the explicit fields; the slug field is the slug's alone.
pub open spec fn new_element(seed: Option<Model>, field: Seq<char>, slug: Seq<char>, fields: Seq<(Seq<char>, Model)>) -> Seq<(Seq<char>, Model)> {
    let base = match seed {
        Some(Model::Object(e)) => seed_layer(e, field),
        _ => Seq::empty(),
    };
    fields_layer(obj_insert(base, field, Model::Str(slug)), fields, field)
}

/// The names and texts of explicit fields.
pub open spec fn field_texts(f: Seq<(String, String)>) -> Seq<(Seq<char>, Seq<char>)> {
    Seq::new(f.len(), |i: int| (f[i].0@, f[i].1@))
}

/// Explicit fields with their texts coerced by shape, given the JSON parse results `js`.
pub open spec fn coerced_fields(f: Seq<(Seq<char>, Seq<char>)>, js: Seq<Option<Model>>) -> Seq<(Seq<char>, Model)> {
    Seq::new(f.len(), |i: int| (f[i].0, coerce_scalar_spec(f[i].1, js[i])))
}

/// `js` is what the JSON parser gave for the field texts handed to it.
pub open spec fn fields_json_consistent(f: Seq<(Seq<char>, Seq<char>)>, js: Seq<Option<Model>>) -> bool {
    &&& js.len() == f.len()
    &&& forall|i: int| 0 <= i < f.len() ==> #[trigger] json_consistent(scalar_json_text(f[i].1), js[i])
}

/// The parse results that coercing the field texts by shape uses.
pub open spec fn field_json_results(f: Seq<(Seq<char>, Seq<char>)>) -> Seq<Option<Model>> {
    Seq::new(f.len(), |i: int| json_result(scalar_json_text(f[i].1)))
}

/// Parse results consistent with the field texts are the ones parsing gives.
proof fn lemma_field_json_results(f: Seq<(Seq<char>, Seq<char>)>, js: Seq<Option<Model>>)
    requires
        fields_json_consistent(f, js),
    ensures
        js == field_json_results(f),
{
    assert forall|i: int| 0 <= i < js.len() implies js[i] == field_json_results(f)[i] by {
        assert(json_consistent(scalar_json_text(f[i].1), js[i]));
    }
    assert(js =~= field_json_results(f));
}

/// The path text of the segments from `i` on.
pub open spec fn rest_path(segs: Seq<Seq<char>>, i: int) -> Seq<char> {
    join_segments(segs.skip(i))
}

/// Appending `elem` to the keyed list that `segs` from segment `i` on leads to: missing keys
/// become objects and a missing list an empty array; no element may hold `slug` already.
pub open spec fn add_keyed_walk(
    m: Model,
    segs: Seq<Seq<char>>,
    i: int,
    field: Seq<char>,
    slug: Seq<char>,
    prefix: Seq<char>,
    elem: Model,
) -> Result<Model, ErrorModel>
    decreases segs.len() - i,
{
    if i >= segs.len() || i < 0 {
        Err(ErrorModel::EmptyPath)
    } else {
        let k = segs[i];
        match m {
            Model::Object(e) => if i + 1 == segs.len() {
                let target = match obj_get(e, k) {
                    Some(t) => t,
                    None => Model::Array(Seq::empty()),
                };
                match target {
                    Model::Array(a) => if slug_index(a, field, slug) is Some {
                        Err(ErrorModel::SlugAlreadyExists { prefix, slug })
                    } else {
                        Ok(Model::Object(obj_insert(e, k, Model::Array(a.push(elem)))))
                    },
                    _ => Err(ErrorModel::NotTraversable { path: rest_path(segs, i), got: "not an array"@ }),
                }
            } else {
                let c = match obj_get(e, k) {
                    Some(c) => c,
                    None => Model::Object(Seq::empty()),
                };
                match add_keyed_walk(c, segs, i + 1, field, slug, prefix, elem) {
                    Ok(c2) => Ok(Model::Object(obj_insert(e, k, c2))),
                    Err(x) => Err(x),
                }
            },
            _ => Err(ErrorModel::NotTraversable { path: rest_path(segs, i), got: "not an object"@ }),
        }
    }
}

/// The message for a slug that holds the path separator.
pub open spec fn dotted_slug_detail(slug: Seq<char>) -> Seq<char> {
    "slug `"@ + slug + "` must not contain '.' (path separator)"@
}

/// The outcome of adding the element with `slug` to the keyed list registered at `prefix`.
pub open spec fn add_keyed_spec(
    m: Model,
    prefix: Seq<char>,
    slug: Seq<char>,
    kls: Seq<KeyedList>,
    seed: Option<Model>,
    fields: Seq<(Seq<char>, Model)>,
) -> Result<Model, ErrorModel> {
    match registration(kls, prefix) {
        None => Err(ErrorModel::UnregisteredArray { path: prefix }),
        Some(f) => if slug.contains('.') {
            Err(ErrorModel::ParseError { format: "slug"@, detail: dotted_slug_detail(slug) })
        } else {
            match parse_path_spec(prefix) {
                Err(e) => Err(e),
                Ok(segs) => add_keyed_walk(m, segs, 0, f, slug, prefix, Model::Object(new_element(seed, f, slug, fields))),
            }
        },
    }
}

/// The path text of the segments from `i` on, as a string.
fn rest_text(segs: &Vec<String>, i: usize) -> (r: String)
    requires
        i <= segs.len(),
    ensures
        r@ == rest_path(views(segs@), i as int),
{
    let mut tail: Vec<String> = Vec::new();
    let mut j = i;
    while j < segs.len()
        invariant
            i <= j <= segs.len(),
            tail@.len() == j - i,
            views(tail@) == views(segs@).subrange(i as int, j as int),
        decreases segs.len() - j,
    {
        let ghost before = tail@;
        let c = copy_string(&segs[j]);
        tail.push(c);
        proof {
            assert(tail@ == before.push(c));
            assert forall|x: int| 0 <= x < tail@.len() implies #[trigger] views(tail@)[x] == views(segs@).subrange(i as int, j + 1)[x] by {
                if x < before.len() {
                    assert(views(before)[x] == views(segs@).subrange(i as int, j as int)[x]);
                }
            }
            assert(views(tail@) =~= views(segs@).subrange(i as int, j + 1));
        }
        j = j + 1;
    }
    assert(views(segs@).subrange(i as int, segs.len() as int) =~= views(segs@).skip(i as int));
    crate::path::join_path(tail.as_slice())
}

/// Whether `s` holds a `.`.
fn has_dot(s: &str) -> (r: bool)
    ensures
        r == s@.contains('.'),
{
    let c = chars_of(s);
    let mut i: usize = 0;
    while i < c.len()
        invariant
            i <= c.len(),
            c@ == s@,
            forall|j: int| 0 <= j < i ==> c@[j] != '.',
        decreases c.len() - i,
    {
        if c[i] == '.' {
            assert(c@[i as int] == '.');
            return true;
        }
        i = i + 1;
    }
    false
}

/// Builds the entries of a new element, with the JSON parse results used for the fields.
fn build_element(seed: Option<&Value>, field: &str, slug: &str, fields: &[(String, String)]) -> (r: (ObjectMap, Ghost<Seq<Option<Model>>>))
    ensures
        fields_json_consistent(field_texts(fields@), r.1@),
        r.0@ == new_element(crate::value::opt_model(seed), field@, slug@, coerced_fields(field_texts(fields@), r.1@)),
{
    let mut elem = ObjectMap::new();
    let ghost seed_m = crate::value::opt_model(seed);
    if let Some(Value::Object(so)) = seed {
        let ghost e = so@;
        let mut i: usize = 0;
        let n = so.len();
        assert(e.take(0) =~= Seq::<(Seq<char>, Model)>::empty());
        while i < n
            invariant
                i <= n,
                n == e.len(),
                e == so@,
                elem@ == seed_layer(e.take(i as int), field@),
            decreases n - i,
        {
            let key = so.key_at(i);
            assert(e.take(i + 1).drop_last() =~= e.take(i as int));
            if !str_equal(key.as_str(), field) {
                let v = so.value_at(i).deep_clone();
                elem.insert(copy_string(key), v);
            }
            i = i + 1;
        }
        assert(e.take(n as int) =~= e);
    }
    elem.insert(owned(field), Value::String(owned(slug)));
    let ghost base = elem@;
    let ghost ft = field_texts(fields@);
    let ghost mut js: Seq<Option<Model>> = Seq::empty();
    let mut i: usize = 0;
    while i < fields.len()
        invariant
            i <= fields.len(),
            ft == field_texts(fields@),
            js.len() == i,
            forall|j: int| 0 <= j < i ==> #[trigger] json_consistent(scalar_json_text(ft[j].1), js[j]),
            elem@ == fields_layer(base, coerced_fields(ft.take(i as int), js), field@),
        decreases fields.len() - i,
    {
        let name = &fields[i].0;
        let text = chars_of(fields[i].1.as_str());
        let (v, g) = coerce_scalar_chars(text.as_slice());
        proof {
            let old_js = js;
            js = js.push(g@);
            assert(ft[i as int] == (fields@[i as int].0@, fields@[i as int].1@));
            assert(coerced_fields(ft.take(i + 1), js).drop_last() =~= coerced_fields(ft.take(i as int), old_js));
        }
        if !str_equal(name.as_str(), field) {
            elem.insert(copy_string(name), v);
        }
        i = i + 1;
    }
    proof {
        assert(ft.take(fields.len() as int) =~= ft);
    }
    (elem, Ghost(js))
}

/// Appends `elem` where `segs` from segment `i` on leads; on error `v` comes back as it was.
fn add_keyed_store(
    v: Value,
    segs: &Vec<String>,
    i: usize,
    field: &str,
    slug: &str,
    prefix: &str,
    elem: Value,
) -> (r: (Value, ConfigResult<()>))
    requires
        i < segs.len(),
    ensures
        match add_keyed_walk(v.model(), views(segs@), i as int, field@, slug@, prefix@, elem.model()) {
            Ok(m) => r.1 is Ok && r.0.model() == m,
            Err(e) => r.1 is Err && r.1->Err_0.model() == e && r.0.model() == v.model(),
        },
    decreases segs.len() - i,
{
    let ghost sv = views(segs@);
    let k = segs[i].as_str();
    assert(sv[i as int] == k@);
    match v {
        Value::Object(mut obj) => {
            let kc = chars_of(k);
            let ghost before = obj@;
            proof {
                use_type_invariant(&obj);
                lemma_obj_find(obj@, k@);
            }
            let found = obj.find(kc.as_slice());
            if i + 1 == segs.len() {
                let mut a: Vec<Value> = match found {
                    None => Vec::new(),
                    Some(idx) => {
                        if !obj.value_at(idx).is_array() {
                            return (Value::Object(obj), Err(ConfigError::NotTraversable { path: rest_text(segs, i), got: owned("not an array") }));
                        }
                        match obj.take_at(idx) {
                            Value::Array(a) => a,
                            _ => Vec::new(),
                        }
                    },
                };
                proof {
                    lemma_models(a@);
                }
                let ghost am = models(a@);
                if crate::traverse::find_slug(&a, field, slug).is_some() {
                    match found {
                        Some(idx) => {
                            obj.replace_at(idx, Value::Array(a));
                            assert(obj@ =~= before);
                        },
                        None => {},
                    }
                    return (Value::Object(obj), Err(ConfigError::SlugAlreadyExists { prefix: owned(prefix), slug: owned(slug) }));
                }
                let ghost em = elem.model();
                a.push(elem);
                proof {
                    lemma_models(a@);
                    assert(models(a@) =~= am.push(em));
                }
                let ghost nm = models(a@);
                match found {
                    Some(idx) => {
                        obj.replace_at(idx, Value::Array(a));
                        proof {
                            lemma_obj_insert_found(before, k@, Model::Array(nm), idx as int);
                            assert(obj@ =~= before.update(idx as int, (k@, Model::Array(nm))));
                        }
                    },
                    None => {
                        obj.insert(owned(k), Value::Array(a));
                    },
                }
                (Value::Object(obj), Ok(()))
            } else {
                match found {
                    Some(idx) => {
                        let child = obj.take_at(idx);
                        let (c2, res) = add_keyed_store(child, segs, i + 1, field, slug, prefix, elem);
                        let ghost cm = c2.model();
                        obj.replace_at(idx, c2);
                        proof {
                            lemma_obj_insert_found(before, k@, cm, idx as int);
                            assert(obj@ =~= before.update(idx as int, (k@, cm)));
                            if res is Err {
                                assert(obj@ =~= before);
                            }
                        }
                        (Value::Object(obj), res)
                    },
                    None => {
                        let fresh = Value::Object(ObjectMap::new());
                        let (c2, res) = add_keyed_store(fresh, segs, i + 1, field, slug, prefix, elem);
                        if res.is_ok() {
                            obj.insert(owned(k), c2);
                        }
                        (Value::Object(obj), res)
                    },
                }
            }
        },
        other => (other, Err(ConfigError::NotTraversable { path: rest_text(segs, i), got: owned("not an object") })),
    }
}

/// Adds a new element to a keyed list, built in three layers: the seed's fields (when the
/// seed is an object), then `{ slug_field: slug }`, then the explicit fields coerced by
/// shape; the slug field always holds the slug. On error the document is left unchanged.
pub fn add_keyed(
    root: &mut Value,
    prefix: &str,
    slug: &str,
    keyed_lists: &[KeyedList],
    seed: Option<&Value>,
    fields: &[(String, String)],
) -> (r: ConfigResult<()>)
    ensures
        match add_keyed_spec(
            old(root).model(),
            prefix@,
            slug@,
            keyed_lists@,
            crate::value::opt_model(seed),
            coerced_fields(field_texts(fields@), field_json_results(field_texts(fields@))),
        ) {
            Ok(m) => r is Ok && final(root).model() == m,
            Err(e) => r is Err && r->Err_0.model() == e && final(root).model() == old(root).model(),
        },
{
    let ghost old_m = root.model();
    let field = match find_registration(keyed_lists, prefix) {
        Some(f) => f,
        None => {
            return Err(ConfigError::UnregisteredArray { path: owned(prefix) });
        },
    };
    let (obj, js) = build_element(seed, field, slug, fields);
    proof {
        lemma_field_json_results(field_texts(fields@), js@);
    }
    let ghost cf = coerced_fields(field_texts(fields@), js@);
    if has_dot(slug) {
        let mut detail = String::new();
        push_str(&mut detail, "slug `");
        push_str(&mut detail, slug);
        push_str(&mut detail, "` must not contain '.' (path separator)");
        assert(Seq::<char>::empty() + "slug `"@ =~= "slug `"@);
        assert(add_keyed_spec(old_m, prefix@, slug@, keyed_lists@, crate::value::opt_model(seed), cf) is Err);
        return Err(ConfigError::ParseError { format: owned("slug"), detail });
    }
    let segs = match parse_path(prefix) {
        Ok(s) => s,
        Err(e) => {
            assert(add_keyed_spec(old_m, prefix@, slug@, keyed_lists@, crate::value::opt_model(seed), cf) == Err::<Model, ErrorModel>(e.model()));
            return Err(e);
        },
    };
    proof {
        crate::path::lemma_split_path_nonempty(prefix@);
    }
    let elem = Value::Object(obj);
    let mut taken = Value::Null;
    std::mem::swap(&mut taken, root);
    let (back, res) = add_keyed_store(taken, &segs, 0, field, slug, prefix, elem);
    *root = back;
    assert(add_keyed_spec(old_m, prefix@, slug@, keyed_lists@, crate::value::opt_model(seed), cf)
        == add_keyed_walk(old_m, views(segs@), 0, field@, slug@, prefix@, Model::Object(new_element(crate::value::opt_model(seed), field@, slug@, cf))));
    res
}

/// The elements of `a` other than those whose `field` holds the string `slug`, in order.
pub open spec fn without_slug(a: Seq<Model>, field: Seq<char>, slug: Seq<char>) -> Seq<Model>
    decreases a.len(),
{
    if a.len() == 0 {
        a
    } else if has_slug(a.last(), field, slug) {
        without_slug(a.drop_last(), field, slug)
    } else {
        without_slug(a.drop_last(), field, slug).push(a.last())
    }
}

/// Removing the elements with `slug` from the keyed list that `segs` from segment `i` on
/// leads to; every step must exist and some element must go.
pub open spec fn remove_keyed_walk(
    m: Model,
    segs: Seq<Seq<char>>,
    i: int,
    field: Seq<char>,
    slug: Seq<char>,
    prefix: Seq<char>,
) -> Result<Model, ErrorModel>
    decreases segs.len() - i,
{
    if i >= segs.len() || i < 0 {
        Err(ErrorModel::EmptyPath)
    } else {
        let k = segs[i];
        match m {
            Model::Object(e) => if i + 1 == segs.len() {
                match obj_get(e, k) {
                    Some(Model::Array(a)) => {
                        let kept = without_slug(a, field, slug);
                        if kept.len() == a.len() {
                            Err(ErrorModel::SlugNotFound { prefix, slug })
                        } else {
                            Ok(Model::Object(obj_insert(e, k, Model::Array(kept))))
                        }
                    },
                    _ => Err(ErrorModel::PathNotFound { path: rest_path(segs, i) }),
                }
            } else {
                match obj_get(e, k) {
                    None => Err(ErrorModel::PathNotFound { path: rest_path(segs, i) }),
                    Some(c) => match remove_keyed_walk(c, segs, i + 1, field, slug, prefix) {
                        Ok(c2) => Ok(Model::Object(obj_insert(e, k, c2))),
                        Err(x) => Err(x),
                    },
                }
            },
            _ => Err(ErrorModel::NotTraversable { path: rest_path(segs, i), got: "not an object"@ }),
        }
    }
}

/// The outcome of removing the elements with `slug` from the keyed list registered at `prefix`.
pub open spec fn remove_keyed_spec(m: Model, prefix: Seq<char>, slug: Seq<char>, kls: Seq<KeyedList>) -> Result<Model, ErrorModel> {
    match registration(kls, prefix) {
        None => Err(ErrorModel::UnregisteredArray { path: prefix }),
        Some(f) => match parse_path_spec(prefix) {
            Err(e) => Err(e),
            Ok(segs) => remove_keyed_walk(m, segs, 0, f, slug, prefix),
        },
    }
}

/// Keeps the elements of `a` whose `field` does not hold the string `slug`.
fn retain_other_slugs(a: Vec<Value>, field: &str, slug: &str) -> (r: Vec<Value>)
    ensures
        models(r@) == without_slug(models(a@), field@, slug@),
{
    proof {
        lemma_models(a@);
    }
    let ghost am = models(a@);
    let mut out: Vec<Value> = Vec::new();
    let mut rest = a;
    let mut i: usize = 0;
    let n = rest.len();
    while i < n
        invariant
            i <= n,
            n == rest.len(),
            am.len() == n,
            forall|j: int| i <= j < n ==> #[trigger] rest@[j].model() == am[j],
            models(out@) == without_slug(am.take(i as int), field@, slug@),
        decreases n - i,
    {
        let mut x = Value::Null;
        rest.set_and_swap(i, &mut x);
        let drop = crate::traverse::has_slug_exec(&x, field, slug);
        proof {
            assert(am.take(i + 1).drop_last() =~= am.take(i as int));
            assert(am.take(i + 1).last() == am[i as int]);
        }
        if !drop {
            let ghost before = out@;
            out.push(x);
            proof {
                lemma_models(out@);
                lemma_models(before);
                assert(models(out@) =~= models(before).push(am[i as int]));
            }
        }
        i = i + 1;
    }
    assert(am.take(n as int) =~= am);
    out
}

/// Removes the elements with `slug` where `segs` from segment `i` on leads; on error `v`
/// comes back as it was.
fn remove_keyed_store(v: Value, segs: &Vec<String>, i: usize, field: &str, slug: &str, prefix: &str) -> (r: (Value, ConfigResult<()>))
    requires
        i < segs.len(),
    ensures
        match remove_keyed_walk(v.model(), views(segs@), i as int, field@, slug@, prefix@) {
            Ok(m) => r.1 is Ok && r.0.model() == m,
            Err(e) => r.1 is Err && r.1->Err_0.model() == e && r.0.model() == v.model(),
        },
    decreases segs.len() - i,
{
    let ghost sv = views(segs@);
    let k = segs[i].as_str();
    assert(sv[i as int] == k@);
    match v {
        Value::Object(mut obj) => {
            let kc = chars_of(k);
            let ghost before = obj@;
            proof {
                use_type_invariant(&obj);
                lemma_obj_find(obj@, k@);
            }
            match obj.find(kc.as_slice()) {
                None => (Value::Object(obj), Err(ConfigError::PathNotFound { path: rest_text(segs, i) })),
                Some(idx) => {
                    if i + 1 == segs.len() {
                        if !obj.value_at(idx).is_array() {
                            return (Value::Object(obj), Err(ConfigError::PathNotFound { path: rest_text(segs, i) }));
                        }
                        let taken = obj.take_at(idx);
                        match taken {
                            Value::Array(a) => {
                                proof {
                                    lemma_models(a@);
                                }
                                let ghost am = models(a@);
                                let old_len = a.len();
                                let kept = retain_other_slugs(a, field, slug);
                                proof {
                                    lemma_models(kept@);
                                }
                                if kept.len() == old_len {
                                    proof {
                                        lemma_without_slug_same_len(am, field@, slug@);
                                    }
                                    obj.replace_at(idx, Value::Array(kept));
                                    proof {
                                        assert(models(kept@) =~= am);
                                        assert(obj@ =~= before);
                                    }
                                    return (Value::Object(obj), Err(ConfigError::SlugNotFound { prefix: owned(prefix), slug: owned(slug) }));
                                }
                                let ghost nm = models(kept@);
                                obj.replace_at(idx, Value::Array(kept));
                                proof {
                                    lemma_obj_insert_found(before, k@, Model::Array(nm), idx as int);
                                    assert(obj@ =~= before.update(idx as int, (k@, Model::Array(nm))));
                                }
                                (Value::Object(obj), Ok(()))
                            },
                            other => {
                                obj.replace_at(idx, other);
                                proof {
                                    assert(obj@ =~= before);
                                }
                                (Value::Object(obj), Err(ConfigError::PathNotFound { path: rest_text(segs, i) }))
                            },
                        }
                    } else {
                        let child = obj.take_at(idx);
                        let (c2, res) = remove_keyed_store(child, segs, i + 1, field, slug, prefix);
                        let ghost cm = c2.model();
                        obj.replace_at(idx, c2);
                        proof {
                            lemma_obj_insert_found(before, k@, cm, idx as int);
                            assert(obj@ =~= before.update(idx as int, (k@, cm)));
                            if res is Err {
                                assert(obj@ =~= before);
                            }
                        }
                        (Value::Object(obj), res)
                    }
                },
            }
        },
        other => (other, Err(ConfigError::NotTraversable { path: rest_text(segs, i), got: owned("not an object") })),
    }
}

/// Keeping every element means none was dropped: the list is unchanged.
proof fn lemma_without_slug_same_len(a: Seq<Model>, field: Seq<char>, slug: Seq<char>)
    ensures
        without_slug(a, field, slug).len() <= a.len(),
        without_slug(a, field, slug).len() == a.len() ==> without_slug(a, field, slug) == a,
    decreases a.len(),
{
    if a.len() > 0 {
        lemma_without_slug_same_len(a.drop_last(), field, slug);
        if !has_slug(a.last(), field, slug) {
            assert(a.drop_last().push(a.last()) =~= a);
        }
    }
}

/// Removes from a keyed list every element whose slug field holds `slug`. It is an error
/// when none does. On error the document is left unchanged.
pub fn remove_keyed(root: &mut Value, prefix: &str, slug: &str, keyed_lists: &[KeyedList]) -> (r: ConfigResult<()>)
    ensures
        match remove_keyed_spec(old(root).model(), prefix@, slug@, keyed_lists@) {
            Ok(m) => r is Ok && final(root).model() == m,
            Err(e) => r is Err && r->Err_0.model() == e && final(root).model() == old(root).model(),
        },
{
    let field = match find_registration(keyed_lists, prefix) {
        Some(f) => f,
        None => {
            return Err(ConfigError::UnregisteredArray { path: owned(prefix) });
        },
    };
    let segs = match parse_path(prefix) {
        Ok(s) => s,
        Err(e) => return Err(e),
    };
    proof {
        crate::path::lemma_split_path_nonempty(prefix@);
    }
    let mut taken = Value::Null;
    std::mem::swap(&mut taken, root);
    let (back, res) = remove_keyed_store(taken, &segs, 0, field, slug, prefix);
    *root = back;
    res
}

} // verus!
