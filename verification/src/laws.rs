//! Properties that relate the document operations to one another.
use vstd::prelude::*;
use crate::value::{
    Model, obj_get, obj_find, obj_insert, obj_remove, keys_sorted, wf, lemma_wf_get, lemma_wf_index,
    lemma_obj_insert_get, lemma_obj_insert_sorted, lemma_obj_remove_get, lemma_obj_find_push, lemma_obj_find,
    lemma_key_lt_irreflexive, lemma_key_lt_total, lemma_key_lt_transitive, key_lt, lemma_obj_insert_found, lemma_obj_find_same_keys, lemma_obj_find_is, lemma_lower_bound,
    lower_bound,
};
use crate::error::ErrorModel;
use crate::number::{
    parse_bool_spec, parse_i64_spec, parse_u64_spec, float_literal, is_digit, all_digits, digits_value, unsigned_part,
    special_float, exp_index, mantissa_ok, lemma_exp_index_at,
};
use crate::format::{Format, detect_spec};
use crate::format::ini_doc::{ini_line, IniLine, ini_load_spec, ini_from, next_line};
use crate::format::scan::{find_char, line_end, is_hws, skip_hws, newlines, line_of, line_message};
use crate::format::dotenv_doc::{
    dotenv_load_spec, quote_end_ok, dq_scan, dotenv_from, dot_value, is_key_char, key_end, export_at, comment_start, rtrim_end,
};
use crate::schema::{annotated_toml, toml_comments, toml_value, field_for, toml_entries, toml_entry, toml_items, toml_item, annotated_yaml, yaml_entries, yaml_entry};
use crate::render::{bool_text, escape_default_text, escape_default_char};
use crate::text::{lower_seq, lower, occurs_at, int_text, nat_text, digit_char, trim, trim_start, trim_end, is_ws};
use crate::schema::{FieldDef, sections, insert_sorted, first_not_below, section_of, doc_markdown, lemma_first_not_below};
use crate::path::{join_segments, escape, parse_path_spec, split_path, segments_nonempty, lemma_split_join, lemma_join_split, lemma_split_path_nonempty};
use crate::number::parse_usize_spec;
use crate::keyed::{
    KeyedList, registration, seed_layer, fields_layer, new_element, add_keyed_walk, add_keyed_spec, without_slug,
    remove_keyed_walk, remove_keyed_spec,
};
use crate::traverse::{
    prefix_path, lemma_prefix_path_push, has_slug, slug_index, array_step_spec, get_walk, get_path_spec, set_target, set_put,
    set_path_spec, remove_path_walk, remove_path_spec, add_walk, add_scalar_spec, remove_scalar_walk,
    remove_scalar_spec, without_items,
};
use crate::coerce::{
    coerce_values_typed_spec, coerce_each_spec, coerce_typed_spec, coerce_scalar_spec, explicit_prefix_spec,
    is_null_text, typed_json_text, scalar_json_text, coerce_values_spec, json_shaped, has_type_prefix,
};
use crate::coerce::elem_existing;
use crate::cli::{detect_format_spec, format_by_name, field_pair_spec, first_eq, preflight_spec};

verus! {

/// Whether each keyed-list step of a walk along `segs` from segment `i` on, starting at `m`,
/// is followed by a key other than the list's slug field, so the element keeps its slug.
pub open spec fn slug_safe(m: Model, segs: Seq<Seq<char>>, i: int, kls: Seq<KeyedList>) -> bool
    decreases segs.len() - i,
{
    if i >= segs.len() || i < 0 {
        true
    } else {
        let k = segs[i];
        let last = i + 1 == segs.len();
        match m {
            Model::Object(e) => if last {
                true
            } else {
                slug_safe(
                    match obj_get(e, k) {
                        Some(c) => c,
                        None => Model::Object(Seq::empty()),
                    },
                    segs,
                    i + 1,
                    kls,
                )
            },
            Model::Array(a) => match array_step_spec(a, k, prefix_path(segs, i), kls) {
                Ok(j) => if !(0 <= j < a.len()) {
                    true
                } else if parse_usize_spec(k) is Some {
                    last || slug_safe(a[j], segs, i + 1, kls)
                } else {
                    !last && registration(kls, prefix_path(segs, i)) != Some(segs[i + 1]) && slug_safe(a[j], segs, i + 1, kls)
                },
                Err(_) => true,
            },
            _ => true,
        }
    }
}

/// The value that setting the dot path `p` to the CLI strings `vals` stores.
pub open spec fn set_value_spec(m: Model, p: Seq<char>, vals: Seq<Seq<char>>, kls: Seq<KeyedList>, js: Seq<Option<Model>>) -> Result<Model, ErrorModel> {
    match parse_path_spec(p) {
        Err(e) => Err(e),
        Ok(segs) => match set_target(m, segs, 0, kls) {
            Err(e) => Err(e),
            Ok(t) => coerce_values_typed_spec(vals, t, js),
        },
    }
}

/// The first element with a slug is characterized by holding it while no earlier one does.
proof fn lemma_slug_index(a: Seq<Model>, f: Seq<char>, s: Seq<char>)
    ensures
        match slug_index(a, f, s) {
            Some(j) => 0 <= j < a.len() && has_slug(a[j], f, s) && forall|x: int| 0 <= x < j ==> !has_slug(#[trigger] a[x], f, s),
            None => forall|x: int| 0 <= x < a.len() ==> !has_slug(#[trigger] a[x], f, s),
        },
    decreases a.len(),
{
    if a.len() > 0 {
        lemma_slug_index(a.drop_first(), f, s);
        if !has_slug(a[0], f, s) {
            assert forall|x: int| 0 < x < a.len() implies a[x] == a.drop_first()[x - 1] by {}
        }
    }
}

proof fn lemma_slug_index_is(a: Seq<Model>, f: Seq<char>, s: Seq<char>, j: int)
    requires
        0 <= j < a.len(),
        has_slug(a[j], f, s),
        forall|x: int| 0 <= x < j ==> !has_slug(#[trigger] a[x], f, s),
    ensures
        slug_index(a, f, s) == Some(j),
{
    lemma_slug_index(a, f, s);
    match slug_index(a, f, s) {
        Some(i) => {
            if i < j {
                assert(!has_slug(a[i], f, s));
            }
            if j < i {
                assert(!has_slug(a[j], f, s));
            }
        },
        None => {
            assert(!has_slug(a[j], f, s));
        },
    }
}

/// A set that passes through a keyed-list element under another key keeps its slug.
proof fn lemma_set_put_keeps_slug(c: Model, segs: Seq<Seq<char>>, i: int, kls: Seq<KeyedList>, nv: Model, f: Seq<char>, s: Seq<char>)
    requires
        wf(c),
        has_slug(c, f, s),
        0 <= i < segs.len(),
        segs[i] != f,
    ensures
        has_slug(set_put(c, segs, i, kls, nv), f, s),
{
    if let Model::Object(e) = c {
        lemma_wf_get(e, segs[i]);
        let x = if i + 1 == segs.len() {
            nv
        } else {
            set_put(
                match obj_get(e, segs[i]) {
                    Some(ch) => ch,
                    None => Model::Object(Seq::empty()),
                },
                segs,
                i + 1,
                kls,
                nv,
            )
        };
        lemma_obj_insert_get(e, segs[i], x, f);
    }
}

proof fn lemma_set_then_get(m: Model, segs: Seq<Seq<char>>, i: int, kls: Seq<KeyedList>, nv: Model, full: Seq<char>)
    requires
        wf(m),
        0 <= i < segs.len(),
        set_target(m, segs, i, kls) is Ok,
        slug_safe(m, segs, i, kls),
    ensures
        get_walk(set_put(m, segs, i, kls, nv), segs, i, kls, full) == Ok::<Model, ErrorModel>(nv),
    decreases segs.len() - i,
{
    let k = segs[i];
    let last = i + 1 == segs.len();
    match m {
        Model::Object(e) => {
            lemma_wf_get(e, k);
            let c = match obj_get(e, k) {
                Some(c) => c,
                None => Model::Object(Seq::empty()),
            };
            if last {
                lemma_obj_insert_get(e, k, nv, k);
                assert(get_walk(nv, segs, i + 1, kls, full) == Ok::<Model, ErrorModel>(nv));
            } else {
                assert(wf(Model::Object(Seq::<(Seq<char>, Model)>::empty())));
                let c2 = set_put(c, segs, i + 1, kls, nv);
                lemma_set_then_get(c, segs, i + 1, kls, nv, full);
                lemma_obj_insert_get(e, k, c2, k);
                assert(set_put(m, segs, i, kls, nv) == Model::Object(obj_insert(e, k, c2)));
                assert(obj_get(obj_insert(e, k, c2), k) == Some(c2));
            }
        },
        Model::Array(a) => {
            let j = array_step_spec(a, k, prefix_path(segs, i), kls)->Ok_0;
            lemma_wf_index(a, j);
            if parse_usize_spec(k) is Some {
                if !last {
                    lemma_set_then_get(a[j], segs, i + 1, kls, nv, full);
                }
            } else {
                let f = registration(kls, prefix_path(segs, i))->Some_0;
                lemma_slug_index(a, f, k);
                let c2 = set_put(a[j], segs, i + 1, kls, nv);
                lemma_set_put_keeps_slug(a[j], segs, i + 1, kls, nv, f, k);
                let a2 = a.update(j, c2);
                assert forall|x: int| 0 <= x < j implies !has_slug(#[trigger] a2[x], f, k) by {
                    assert(a2[x] == a[x]);
                }
                lemma_slug_index_is(a2, f, k, j);
                lemma_set_then_get(a[j], segs, i + 1, kls, nv, full);
            }
        },
        _ => {},
    }
}

/// Reading a path right after setting it gives back the value that was stored there: the
/// CLI strings coerced toward what the path held before. This holds for every path whose
/// keyed-list steps each go on into the element under a key other than the slug field
/// (setting the slug field, or stopping at the element, changes what the slug finds).
pub proof fn law_get_after_set(m: Model, p: Seq<char>, vals: Seq<Seq<char>>, kls: Seq<KeyedList>, js: Seq<Option<Model>>)
    requires
        wf(m),
        parse_path_spec(p) matches Ok(segs) ==> slug_safe(m, segs, 0, kls),
    ensures
        set_path_spec(m, p, vals, kls, js) matches Ok(m2) ==> get_path_spec(m2, p, kls) == set_value_spec(m, p, vals, kls, js),
{
    if let Ok(segs) = parse_path_spec(p) {
        lemma_split_path_nonempty(p);
        if let Ok(t) = set_target(m, segs, 0, kls) {
            if let Ok(nv) = coerce_values_typed_spec(vals, t, js) {
                lemma_set_then_get(m, segs, 0, kls, nv, p);
            }
        }
    }
}

/// Whether the walks along `p` and `q` from segment `i` on, starting at `m`, go through the
/// same existing object keys and the same array positions (decimal indices naming one
/// position) and then part: at an object `q` names a different key, and, when `at_index`
/// holds, at an array `q` names a different position.
pub open spec fn paths_part(m: Model, p: Seq<Seq<char>>, q: Seq<Seq<char>>, i: int, at_index: bool) -> bool
    decreases p.len() - i,
{
    if i < 0 || i >= p.len() || i >= q.len() {
        false
    } else {
        match m {
            Model::Object(e) => if p[i] != q[i] {
                true
            } else {
                match obj_get(e, p[i]) {
                    Some(c) => paths_part(c, p, q, i + 1, at_index),
                    None => false,
                }
            },
            Model::Array(a) => match (parse_usize_spec(p[i]), parse_usize_spec(q[i])) {
                (Some(n), Some(n2)) => if n != n2 {
                    at_index
                } else if (n as int) < a.len() {
                    paths_part(a[n as int], p, q, i + 1, at_index)
                } else {
                    false
                },
                _ => false,
            },
            _ => false,
        }
    }
}

proof fn lemma_set_frame(m: Model, p: Seq<Seq<char>>, q: Seq<Seq<char>>, i: int, kls: Seq<KeyedList>, nv: Model, full: Seq<char>)
    requires
        wf(m),
        paths_part(m, p, q, i, true),
    ensures
        get_walk(set_put(m, p, i, kls, nv), q, i, kls, full) == get_walk(m, q, i, kls, full),
    decreases p.len() - i,
{
    match m {
        Model::Object(e) => {
            lemma_wf_get(e, p[i]);
            let x = if i + 1 == p.len() {
                nv
            } else {
                set_put(
                    match obj_get(e, p[i]) {
                        Some(ch) => ch,
                        None => Model::Object(Seq::empty()),
                    },
                    p,
                    i + 1,
                    kls,
                    nv,
                )
            };
            if p[i] == q[i] {
                let c = obj_get(e, p[i])->Some_0;
                assert(paths_part(c, p, q, i + 1, true));
                assert(i + 1 < p.len());
                assert(x == set_put(c, p, i + 1, kls, nv));
                assert(set_put(m, p, i, kls, nv) == Model::Object(obj_insert(e, p[i], x)));
                lemma_obj_insert_get(e, p[i], x, q[i]);
                lemma_set_frame(c, p, q, i + 1, kls, nv, full);
                assert(get_walk(m, q, i, kls, full) == get_walk(c, q, i + 1, kls, full));
            } else {
                assert(set_put(m, p, i, kls, nv) == Model::Object(obj_insert(e, p[i], x)));
                lemma_obj_insert_get(e, p[i], x, q[i]);
            }
        },
        Model::Array(a) => {
            let n = parse_usize_spec(p[i])->Some_0 as int;
            let n2 = parse_usize_spec(q[i])->Some_0 as int;
            if n < a.len() {
                let x = if i + 1 == p.len() {
                    nv
                } else {
                    set_put(a[n], p, i + 1, kls, nv)
                };
                let a2 = a.update(n, x);
                assert(set_put(m, p, i, kls, nv) == Model::Array(a2));
                if n == n2 {
                    lemma_wf_index(a, n);
                    assert(paths_part(a[n], p, q, i + 1, true));
                    lemma_set_frame(a[n], p, q, i + 1, kls, nv, full);
                } else if n2 < a.len() {
                    assert(a2[n2] == a[n2]);
                }
            }
        },
        _ => {},
    }
}

/// Setting a path leaves the value at every other path alone: reading a path that parts
/// from it at an object key or an array position, after the keys and positions they share,
/// gives what it gave before.
pub proof fn law_set_keeps_other_paths(
    m: Model,
    p: Seq<char>,
    q: Seq<char>,
    vals: Seq<Seq<char>>,
    kls: Seq<KeyedList>,
    js: Seq<Option<Model>>,
)
    requires
        wf(m),
        parse_path_spec(p) is Ok,
        parse_path_spec(q) is Ok,
        paths_part(m, parse_path_spec(p)->Ok_0, parse_path_spec(q)->Ok_0, 0, true),
    ensures
        set_path_spec(m, p, vals, kls, js) matches Ok(m2) ==> get_path_spec(m2, q, kls) == get_path_spec(m, q, kls),
{
    let ps = parse_path_spec(p)->Ok_0;
    let qs = parse_path_spec(q)->Ok_0;
    if let Ok(t) = set_target(m, ps, 0, kls) {
        if let Ok(nv) = coerce_values_typed_spec(vals, t, js) {
            lemma_set_frame(m, ps, qs, 0, kls, nv, q);
        }
    }
}

/// Whether removing along `segs` from segment `i` on, starting at `m`, ends by removing an
/// object key (rather than an array element, whose successors move up).
pub open spec fn removes_key(m: Model, segs: Seq<Seq<char>>, i: int) -> bool
    decreases segs.len() - i,
{
    if i < 0 || i >= segs.len() {
        false
    } else {
        let k = segs[i];
        match m {
            Model::Object(e) => if i + 1 == segs.len() {
                true
            } else {
                match obj_get(e, k) {
                    Some(c) => removes_key(c, segs, i + 1),
                    None => false,
                }
            },
            Model::Array(a) => match parse_usize_spec(k) {
                Some(n) => i + 1 < segs.len() && (n as int) < a.len() && removes_key(a[n as int], segs, i + 1),
                None => false,
            },
            _ => false,
        }
    }
}

proof fn lemma_remove_then_get(m: Model, segs: Seq<Seq<char>>, i: int, kls: Seq<KeyedList>, full: Seq<char>)
    requires
        wf(m),
        removes_key(m, segs, i),
        remove_path_walk(m, segs, i) is Ok,
    ensures
        get_walk(remove_path_walk(m, segs, i)->Ok_0, segs, i, kls, full) == Err::<Model, ErrorModel>(
            ErrorModel::UnknownSegment { path: full, segment: segs.last() },
        ),
    decreases segs.len() - i,
{
    let k = segs[i];
    match m {
        Model::Object(e) => {
            lemma_wf_get(e, k);
            if i + 1 == segs.len() {
                lemma_obj_remove_get(e, k, k);
            } else {
                let c = obj_get(e, k)->Some_0;
                lemma_remove_then_get(c, segs, i + 1, kls, full);
                let c2 = remove_path_walk(c, segs, i + 1)->Ok_0;
                lemma_obj_insert_get(e, k, c2, k);
            }
        },
        Model::Array(a) => {
            let n = parse_usize_spec(k)->Some_0;
            lemma_wf_index(a, n as int);
            lemma_remove_then_get(a[n as int], segs, i + 1, kls, full);
        },
        _ => {},
    }
}

/// After an object key is removed, reading its path reports the last segment as unknown.
pub proof fn law_get_after_remove(m: Model, p: Seq<char>, kls: Seq<KeyedList>)
    requires
        wf(m),
        parse_path_spec(p) matches Ok(segs) ==> removes_key(m, segs, 0),
    ensures
        remove_path_spec(m, p) matches Ok(m2) ==> get_path_spec(m2, p, kls) == Err::<Model, ErrorModel>(
            ErrorModel::UnknownSegment { path: p, segment: parse_path_spec(p)->Ok_0.last() },
        ),
{
    if let Ok(segs) = parse_path_spec(p) {
        if remove_path_walk(m, segs, 0) is Ok {
            lemma_remove_then_get(m, segs, 0, kls, p);
        }
    }
}

proof fn lemma_remove_frame(m: Model, p: Seq<Seq<char>>, q: Seq<Seq<char>>, i: int, kls: Seq<KeyedList>, full: Seq<char>)
    requires
        wf(m),
        paths_part(m, p, q, i, false),
        remove_path_walk(m, p, i) is Ok,
    ensures
        get_walk(remove_path_walk(m, p, i)->Ok_0, q, i, kls, full) == get_walk(m, q, i, kls, full),
    decreases p.len() - i,
{
    match m {
        Model::Object(e) => {
            lemma_wf_get(e, p[i]);
            if i + 1 == p.len() {
                if p[i] == q[i] {
                    let c = obj_get(e, p[i])->Some_0;
                    assert(paths_part(c, p, q, i + 1, false));
                }
                assert(p[i] != q[i]);
                assert(remove_path_walk(m, p, i) == Ok::<Model, ErrorModel>(Model::Object(obj_remove(e, p[i]))));
                lemma_obj_remove_get(e, p[i], q[i]);
            } else {
                let c = obj_get(e, p[i])->Some_0;
                let c2 = remove_path_walk(c, p, i + 1)->Ok_0;
                assert(remove_path_walk(m, p, i) == Ok::<Model, ErrorModel>(Model::Object(obj_insert(e, p[i], c2))));
                lemma_obj_insert_get(e, p[i], c2, q[i]);
                if p[i] == q[i] {
                    assert(paths_part(c, p, q, i + 1, false));
                    lemma_remove_frame(c, p, q, i + 1, kls, full);
                    assert(get_walk(m, q, i, kls, full) == get_walk(c, q, i + 1, kls, full));
                }
            }
        },
        Model::Array(a) => {
            let n = parse_usize_spec(p[i])->Some_0 as int;
            lemma_wf_index(a, n);
            assert(paths_part(a[n], p, q, i + 1, false));
            let c2 = remove_path_walk(a[n], p, i + 1)->Ok_0;
            assert(remove_path_walk(m, p, i) == Ok::<Model, ErrorModel>(Model::Array(a.update(n, c2))));
            lemma_remove_frame(a[n], p, q, i + 1, kls, full);
        },
        _ => {},
    }
}

/// Removing a path leaves the value at every other path alone: reading a path that parts
/// from it at an object key, after the keys and array positions they share, gives what it
/// gave before. (Parting at an array position is left out: removing an element moves the
/// ones after it up.)
pub proof fn law_remove_keeps_other_paths(m: Model, p: Seq<char>, q: Seq<char>, kls: Seq<KeyedList>)
    requires
        wf(m),
        parse_path_spec(p) is Ok,
        parse_path_spec(q) is Ok,
        paths_part(m, parse_path_spec(p)->Ok_0, parse_path_spec(q)->Ok_0, 0, false),
    ensures
        remove_path_spec(m, p) matches Ok(m2) ==> get_path_spec(m2, q, kls) == get_path_spec(m, q, kls),
{
    let ps = parse_path_spec(p)->Ok_0;
    let qs = parse_path_spec(q)->Ok_0;
    if remove_path_walk(m, ps, 0) is Ok {
        lemma_remove_frame(m, ps, qs, 0, kls, q);
    }
}

proof fn lemma_seed_layer_sorted(s: Seq<(Seq<char>, Model)>, f: Seq<char>)
    ensures
        keys_sorted(seed_layer(s, f)),
    decreases s.len(),
{
    if s.len() > 0 {
        lemma_seed_layer_sorted(s.drop_last(), f);
        if s.last().0 != f {
            lemma_obj_insert_sorted(seed_layer(s.drop_last(), f), s.last().0, s.last().1);
        }
    }
}

proof fn lemma_fields_layer(acc: Seq<(Seq<char>, Model)>, fields: Seq<(Seq<char>, Model)>, f: Seq<char>)
    requires
        keys_sorted(acc),
    ensures
        keys_sorted(fields_layer(acc, fields, f)),
        obj_get(fields_layer(acc, fields, f), f) == obj_get(acc, f),
    decreases fields.len(),
{
    if fields.len() > 0 {
        lemma_fields_layer(acc, fields.drop_last(), f);
        let r = fields_layer(acc, fields.drop_last(), f);
        if fields.last().0 != f {
            lemma_obj_insert_sorted(r, fields.last().0, fields.last().1);
            lemma_obj_insert_get(r, fields.last().0, fields.last().1, f);
        }
    }
}

/// A new keyed-list element holds its slug under the slug field.
proof fn lemma_new_element_slug(seed: Option<Model>, f: Seq<char>, slug: Seq<char>, fields: Seq<(Seq<char>, Model)>)
    ensures
        has_slug(Model::Object(new_element(seed, f, slug, fields)), f, slug),
{
    let base = match seed {
        Some(Model::Object(e)) => seed_layer(e, f),
        _ => Seq::empty(),
    };
    if let Some(Model::Object(e)) = seed {
        lemma_seed_layer_sorted(e, f);
    }
    lemma_obj_insert_sorted(base, f, Model::Str(slug));
    lemma_obj_insert_get(base, f, Model::Str(slug), f);
    lemma_fields_layer(obj_insert(base, f, Model::Str(slug)), fields, f);
}

/// The path of a list's segments followed by one more segment.
proof fn lemma_path_push(segs: Seq<Seq<char>>, p: Seq<char>, x: Seq<char>)
    requires
        parse_path_spec(p) == Ok::<Seq<Seq<char>>, ErrorModel>(segs),
        x.len() > 0,
    ensures
        parse_path_spec(p + seq!['.'] + escape(x)) == Ok::<Seq<Seq<char>>, ErrorModel>(segs.push(x)),
        prefix_path(segs.push(x), segs.len() as int) == p,
{
    lemma_split_path_nonempty(p);
    lemma_join_split(p);
    let s2 = segs.push(x);
    let n = segs.len() as int;
    assert(s2.take(n) =~= segs);
    assert(s2.take(n + 1) =~= s2);
    lemma_prefix_path_push(s2, n);
    lemma_split_join(s2);
    assert(segments_nonempty(s2)) by {
        assert forall|j: int| 0 <= j < s2.len() implies #[trigger] s2[j].len() > 0 by {
            if j < n {
                assert(s2[j] == segs[j]);
            }
        }
    }
}

proof fn lemma_keyed_add_then_get(
    m: Model,
    segs: Seq<Seq<char>>,
    i: int,
    f: Seq<char>,
    slug: Seq<char>,
    prefix: Seq<char>,
    elem: Model,
    kls: Seq<KeyedList>,
    full: Seq<char>,
)
    requires
        wf(m),
        0 <= i < segs.len(),
        add_keyed_walk(m, segs, i, f, slug, prefix, elem) is Ok,
        registration(kls, join_segments(segs)) == Some(f),
        parse_usize_spec(slug) is None,
        has_slug(elem, f, slug),
    ensures
        get_walk(add_keyed_walk(m, segs, i, f, slug, prefix, elem)->Ok_0, segs.push(slug), i, kls, full) == Ok::<Model, ErrorModel>(elem),
    decreases segs.len() - i,
{
    let s2 = segs.push(slug);
    let k = segs[i];
    assert(s2[i] == k);
    if let Model::Object(e) = m {
        lemma_wf_get(e, k);
        if i + 1 == segs.len() {
            let a = match obj_get(e, k) {
                Some(Model::Array(a)) => a,
                _ => Seq::empty(),
            };
            let a2 = a.push(elem);
            lemma_obj_insert_get(e, k, Model::Array(a2), k);
            lemma_slug_index(a, f, slug);
            assert forall|x: int| 0 <= x < a.len() implies !has_slug(#[trigger] a2[x], f, slug) by {
                assert(a2[x] == a[x]);
            }
            lemma_slug_index_is(a2, f, slug, a.len() as int);
            assert(s2.take(i + 1) =~= segs);
            assert(s2[i + 1] == slug);
            let m2 = Model::Object(obj_insert(e, k, Model::Array(a2)));
            assert(add_keyed_walk(m, segs, i, f, slug, prefix, elem) == Ok::<Model, ErrorModel>(m2));
            assert(prefix_path(s2, i + 1) == join_segments(segs));
            assert(array_step_spec(a2, slug, prefix_path(s2, i + 1), kls) == Ok::<int, ErrorModel>(a.len() as int));
            assert(a2[a.len() as int] == elem);
            assert(get_walk(elem, s2, i + 2, kls, full) == Ok::<Model, ErrorModel>(elem));
            assert(get_walk(Model::Array(a2), s2, i + 1, kls, full) == Ok::<Model, ErrorModel>(elem));
        } else {
            let c = match obj_get(e, k) {
                Some(c) => c,
                None => Model::Object(Seq::empty()),
            };
            assert(wf(Model::Object(Seq::<(Seq<char>, Model)>::empty())));
            lemma_keyed_add_then_get(c, segs, i + 1, f, slug, prefix, elem, kls, full);
            let c2 = add_keyed_walk(c, segs, i + 1, f, slug, prefix, elem)->Ok_0;
            lemma_obj_insert_get(e, k, c2, k);
        }
    }
}

/// An element just added to a keyed list is found by its slug: reading the list's path
/// followed by the slug gives the new element. (A slug that reads as a decimal number
/// addresses an element by index instead, and an empty slug makes an empty segment.)
pub proof fn law_keyed_add_then_get(
    m: Model,
    prefix: Seq<char>,
    slug: Seq<char>,
    kls: Seq<KeyedList>,
    seed: Option<Model>,
    fields: Seq<(Seq<char>, Model)>,
)
    requires
        wf(m),
        slug.len() > 0,
        parse_usize_spec(slug) is None,
    ensures
        add_keyed_spec(m, prefix, slug, kls, seed, fields) matches Ok(m2) ==> get_path_spec(
            m2,
            prefix + seq!['.'] + escape(slug),
            kls,
        ) == Ok::<Model, ErrorModel>(Model::Object(new_element(seed, registration(kls, prefix)->Some_0, slug, fields))),
{
    if let Some(f) = registration(kls, prefix) {
        if let Ok(segs) = parse_path_spec(prefix) {
            let elem = Model::Object(new_element(seed, f, slug, fields));
            if !slug.contains('.') && add_keyed_walk(m, segs, 0, f, slug, prefix, elem) is Ok {
                lemma_path_push(segs, prefix, slug);
                lemma_join_split(prefix);
                lemma_split_path_nonempty(prefix);
                lemma_new_element_slug(seed, f, slug, fields);
                lemma_keyed_add_then_get(m, segs, 0, f, slug, prefix, elem, kls, prefix + seq!['.'] + escape(slug));
            }
        }
    }
}

proof fn lemma_keyed_add_twice(
    m: Model,
    segs: Seq<Seq<char>>,
    i: int,
    f: Seq<char>,
    slug: Seq<char>,
    prefix: Seq<char>,
    elem: Model,
    elem2: Model,
)
    requires
        wf(m),
        0 <= i < segs.len(),
        add_keyed_walk(m, segs, i, f, slug, prefix, elem) is Ok,
        has_slug(elem, f, slug),
    ensures
        add_keyed_walk(add_keyed_walk(m, segs, i, f, slug, prefix, elem)->Ok_0, segs, i, f, slug, prefix, elem2)
            == Err::<Model, ErrorModel>(ErrorModel::SlugAlreadyExists { prefix, slug }),
    decreases segs.len() - i,
{
    let k = segs[i];
    if let Model::Object(e) = m {
        lemma_wf_get(e, k);
        if i + 1 == segs.len() {
            let a = match obj_get(e, k) {
                Some(Model::Array(a)) => a,
                _ => Seq::empty(),
            };
            let a2 = a.push(elem);
            lemma_obj_insert_get(e, k, Model::Array(a2), k);
            lemma_slug_index(a2, f, slug);
            assert(has_slug(a2[a.len() as int], f, slug));
        } else {
            let c = match obj_get(e, k) {
                Some(c) => c,
                None => Model::Object(Seq::empty()),
            };
            assert(wf(Model::Object(Seq::<(Seq<char>, Model)>::empty())));
            lemma_keyed_add_twice(c, segs, i + 1, f, slug, prefix, elem, elem2);
            let c2 = add_keyed_walk(c, segs, i + 1, f, slug, prefix, elem)->Ok_0;
            lemma_obj_insert_get(e, k, c2, k);
        }
    }
}

/// A slug is added to a keyed list at most once: adding it again, with any seed and
/// fields, is refused as already existing.
pub proof fn law_keyed_add_twice(
    m: Model,
    prefix: Seq<char>,
    slug: Seq<char>,
    kls: Seq<KeyedList>,
    seed: Option<Model>,
    fields: Seq<(Seq<char>, Model)>,
    seed2: Option<Model>,
    fields2: Seq<(Seq<char>, Model)>,
)
    requires
        wf(m),
    ensures
        add_keyed_spec(m, prefix, slug, kls, seed, fields) matches Ok(m2) ==> add_keyed_spec(m2, prefix, slug, kls, seed2, fields2)
            == Err::<Model, ErrorModel>(ErrorModel::SlugAlreadyExists { prefix, slug }),
{
    if let Some(f) = registration(kls, prefix) {
        if let Ok(segs) = parse_path_spec(prefix) {
            let elem = Model::Object(new_element(seed, f, slug, fields));
            let elem2 = Model::Object(new_element(seed2, f, slug, fields2));
            if !slug.contains('.') && add_keyed_walk(m, segs, 0, f, slug, prefix, elem) is Ok {
                lemma_split_path_nonempty(prefix);
                lemma_new_element_slug(seed, f, slug, fields);
                lemma_keyed_add_twice(m, segs, 0, f, slug, prefix, elem, elem2);
            }
        }
    }
}

proof fn lemma_without_slug_lacks(a: Seq<Model>, f: Seq<char>, slug: Seq<char>)
    ensures
        forall|x: int| 0 <= x < without_slug(a, f, slug).len() ==> !has_slug(#[trigger] without_slug(a, f, slug)[x], f, slug),
    decreases a.len(),
{
    if a.len() > 0 {
        lemma_without_slug_lacks(a.drop_last(), f, slug);
        let w = without_slug(a.drop_last(), f, slug);
        if !has_slug(a.last(), f, slug) {
            assert forall|x: int| 0 <= x < w.push(a.last()).len() implies !has_slug(#[trigger] w.push(a.last())[x], f, slug) by {
                if x < w.len() {
                    assert(w.push(a.last())[x] == w[x]);
                }
            }
        }
    }
}

proof fn lemma_keyed_remove_then_get(
    m: Model,
    segs: Seq<Seq<char>>,
    i: int,
    f: Seq<char>,
    slug: Seq<char>,
    prefix: Seq<char>,
    kls: Seq<KeyedList>,
    full: Seq<char>,
)
    requires
        wf(m),
        0 <= i < segs.len(),
        remove_keyed_walk(m, segs, i, f, slug, prefix) is Ok,
        registration(kls, join_segments(segs)) == Some(f),
        parse_usize_spec(slug) is None,
    ensures
        get_walk(remove_keyed_walk(m, segs, i, f, slug, prefix)->Ok_0, segs.push(slug), i, kls, full) == Err::<Model, ErrorModel>(
            ErrorModel::SlugNotFound { prefix: join_segments(segs), slug },
        ),
    decreases segs.len() - i,
{
    let s2 = segs.push(slug);
    let k = segs[i];
    assert(s2[i] == k);
    if let Model::Object(e) = m {
        lemma_wf_get(e, k);
        if i + 1 == segs.len() {
            let a = obj_get(e, k)->Some_0->Array_0;
            let kept = without_slug(a, f, slug);
            lemma_obj_insert_get(e, k, Model::Array(kept), k);
            lemma_without_slug_lacks(a, f, slug);
            lemma_slug_index(kept, f, slug);
            assert(s2.take(i + 1) =~= segs);
            assert(s2[i + 1] == slug);
            let m2 = Model::Object(obj_insert(e, k, Model::Array(kept)));
            assert(remove_keyed_walk(m, segs, i, f, slug, prefix) == Ok::<Model, ErrorModel>(m2));
            assert(prefix_path(s2, i + 1) == join_segments(segs));
            assert(slug_index(kept, f, slug) is None);
            assert(get_walk(Model::Array(kept), s2, i + 1, kls, full) == Err::<Model, ErrorModel>(
                ErrorModel::SlugNotFound { prefix: join_segments(segs), slug },
            ));
        } else {
            let c = obj_get(e, k)->Some_0;
            lemma_keyed_remove_then_get(c, segs, i + 1, f, slug, prefix, kls, full);
            let c2 = remove_keyed_walk(c, segs, i + 1, f, slug, prefix)->Ok_0;
            lemma_obj_insert_get(e, k, c2, k);
        }
    }
}

/// After the elements with a slug are removed from a keyed list, reading the list's path
/// followed by that slug reports the slug as not found.
pub proof fn law_keyed_remove_then_get(m: Model, prefix: Seq<char>, slug: Seq<char>, kls: Seq<KeyedList>)
    requires
        wf(m),
        slug.len() > 0,
        parse_usize_spec(slug) is None,
    ensures
        remove_keyed_spec(m, prefix, slug, kls) matches Ok(m2) ==> get_path_spec(m2, prefix + seq!['.'] + escape(slug), kls)
            == Err::<Model, ErrorModel>(ErrorModel::SlugNotFound { prefix, slug }),
{
    if let Some(f) = registration(kls, prefix) {
        if let Ok(segs) = parse_path_spec(prefix) {
            if remove_keyed_walk(m, segs, 0, f, slug, prefix) is Ok {
                lemma_path_push(segs, prefix, slug);
                lemma_join_split(prefix);
                lemma_split_path_nonempty(prefix);
                lemma_keyed_remove_then_get(m, segs, 0, f, slug, prefix, kls, prefix + seq!['.'] + escape(slug));
            }
        }
    }
}

/// Mapping a key to the value it already holds leaves sorted entries as they are.
proof fn lemma_obj_insert_same(e: Seq<(Seq<char>, Model)>, k: Seq<char>, v: Model)
    requires
        keys_sorted(e),
        obj_get(e, k) == Some(v),
    ensures
        obj_insert(e, k, v) == e,
{
    let i = obj_find(e, k)->Some_0;
    lemma_obj_find(e, k);
    lemma_obj_insert_found(e, k, v, i);
    assert(e.update(i, (k, v)) =~= e);
}

/// Mapping a key twice keeps only the second value.
proof fn lemma_obj_insert_twice(e: Seq<(Seq<char>, Model)>, k: Seq<char>, x: Model, y: Model)
    requires
        keys_sorted(e),
    ensures
        obj_insert(obj_insert(e, k, x), k, y) == obj_insert(e, k, y),
{
    lemma_obj_insert_sorted(e, k, x);
    let e1 = obj_insert(e, k, x);
    lemma_obj_insert_get(e, k, x, k);
    let i = obj_find(e1, k)->Some_0;
    lemma_obj_find(e1, k);
    lemma_obj_insert_found(e1, k, y, i);
    match obj_find(e, k) {
        Some(j) => {
            lemma_obj_find(e, k);
            lemma_obj_insert_found(e, k, x, j);
            lemma_obj_insert_found(e, k, y, j);
            lemma_obj_find_same_keys(e, e1, k);
            assert(e1.update(i, (k, y)) =~= e.update(j, (k, y)));
        },
        None => {
            let p = lower_bound(e, k);
            lemma_lower_bound(e, k);
            lemma_obj_find(e, k);
            assert(e1 == e.insert(p, (k, x)));
            assert(e1[p].0 == k);
            lemma_obj_find_is(e1, k, p);
            assert(e1.update(p, (k, y)) =~= e.insert(p, (k, y)));
        },
    }
}

/// A list in which no element has the slug keeps every element.
proof fn lemma_without_slug_none(a: Seq<Model>, f: Seq<char>, slug: Seq<char>)
    requires
        forall|x: int| 0 <= x < a.len() ==> !has_slug(#[trigger] a[x], f, slug),
    ensures
        without_slug(a, f, slug) == a,
    decreases a.len(),
{
    if a.len() > 0 {
        assert(!has_slug(a[a.len() - 1], f, slug));
        assert forall|x: int| 0 <= x < a.drop_last().len() implies !has_slug(#[trigger] a.drop_last()[x], f, slug) by {
            assert(a.drop_last()[x] == a[x]);
        }
        lemma_without_slug_none(a.drop_last(), f, slug);
        assert(a.drop_last().push(a.last()) =~= a);
    }
}

proof fn lemma_keyed_remove_undoes_add(
    m: Model,
    segs: Seq<Seq<char>>,
    i: int,
    f: Seq<char>,
    slug: Seq<char>,
    prefix: Seq<char>,
    elem: Model,
    kls: Seq<KeyedList>,
    full: Seq<char>,
)
    requires
        wf(m),
        0 <= i < segs.len(),
        get_walk(m, segs, i, kls, full) matches Ok(Model::Array(_)),
        add_keyed_walk(m, segs, i, f, slug, prefix, elem) is Ok,
        has_slug(elem, f, slug),
    ensures
        remove_keyed_walk(add_keyed_walk(m, segs, i, f, slug, prefix, elem)->Ok_0, segs, i, f, slug, prefix)
            == Ok::<Model, ErrorModel>(m),
    decreases segs.len() - i,
{
    let k = segs[i];
    if let Model::Object(e) = m {
        lemma_wf_get(e, k);
        let c = obj_get(e, k)->Some_0;
        if i + 1 == segs.len() {
            assert(get_walk(c, segs, i + 1, kls, full) == Ok::<Model, ErrorModel>(c));
            let a = c->Array_0;
            let a2 = a.push(elem);
            let e2 = obj_insert(e, k, Model::Array(a2));
            lemma_obj_insert_get(e, k, Model::Array(a2), k);
            lemma_slug_index(a, f, slug);
            lemma_without_slug_none(a, f, slug);
            assert(a2.drop_last() =~= a);
            assert(without_slug(a2, f, slug) == a);
            lemma_obj_insert_twice(e, k, Model::Array(a2), Model::Array(a));
            lemma_obj_insert_same(e, k, Model::Array(a));
        } else {
            let c2 = add_keyed_walk(c, segs, i + 1, f, slug, prefix, elem)->Ok_0;
            lemma_keyed_remove_undoes_add(c, segs, i + 1, f, slug, prefix, elem, kls, full);
            lemma_obj_insert_get(e, k, c2, k);
            lemma_obj_insert_twice(e, k, c2, c);
            lemma_obj_insert_same(e, k, c);
        }
    }
}

/// Removing a slug right after adding it to a keyed list that already exists gives back
/// the document as it was.
pub proof fn law_keyed_remove_undoes_add(
    m: Model,
    prefix: Seq<char>,
    slug: Seq<char>,
    kls: Seq<KeyedList>,
    seed: Option<Model>,
    fields: Seq<(Seq<char>, Model)>,
)
    requires
        wf(m),
        get_path_spec(m, prefix, kls) matches Ok(Model::Array(_)),
    ensures
        add_keyed_spec(m, prefix, slug, kls, seed, fields) matches Ok(m2) ==> remove_keyed_spec(m2, prefix, slug, kls)
            == Ok::<Model, ErrorModel>(m),
{
    if let Some(f) = registration(kls, prefix) {
        if let Ok(segs) = parse_path_spec(prefix) {
            let elem = Model::Object(new_element(seed, f, slug, fields));
            if !slug.contains('.') && add_keyed_walk(m, segs, 0, f, slug, prefix, elem) is Ok {
                lemma_split_path_nonempty(prefix);
                lemma_new_element_slug(seed, f, slug, fields);
                lemma_keyed_remove_undoes_add(m, segs, 0, f, slug, prefix, elem, kls, prefix);
            }
        }
    }
}

proof fn lemma_keyed_add_appends(
    m: Model,
    segs: Seq<Seq<char>>,
    i: int,
    f: Seq<char>,
    slug: Seq<char>,
    prefix: Seq<char>,
    elem: Model,
    kls: Seq<KeyedList>,
    full: Seq<char>,
    a0: Seq<Model>,
)
    requires
        wf(m),
        0 <= i < segs.len(),
        get_walk(m, segs, i, kls, full) == Ok::<Model, ErrorModel>(Model::Array(a0)),
        add_keyed_walk(m, segs, i, f, slug, prefix, elem) is Ok,
    ensures
        get_walk(add_keyed_walk(m, segs, i, f, slug, prefix, elem)->Ok_0, segs, i, kls, full)
            == Ok::<Model, ErrorModel>(Model::Array(a0.push(elem))),
    decreases segs.len() - i,
{
    let k = segs[i];
    if let Model::Object(e) = m {
        lemma_wf_get(e, k);
        let c = obj_get(e, k)->Some_0;
        if i + 1 == segs.len() {
            assert(get_walk(c, segs, i + 1, kls, full) == Ok::<Model, ErrorModel>(c));
            lemma_obj_insert_get(e, k, Model::Array(a0.push(elem)), k);
            assert(get_walk(Model::Array(a0.push(elem)), segs, i + 1, kls, full) == Ok::<Model, ErrorModel>(
                Model::Array(a0.push(elem)),
            ));
        } else {
            let c2 = add_keyed_walk(c, segs, i + 1, f, slug, prefix, elem)->Ok_0;
            lemma_keyed_add_appends(c, segs, i + 1, f, slug, prefix, elem, kls, full, a0);
            lemma_obj_insert_get(e, k, c2, k);
        }
    }
}

/// Adding to a keyed list that already exists appends the new element to it: the list's
/// path then reads the elements it held, in order, followed by the new one.
pub proof fn law_keyed_add_appends(
    m: Model,
    prefix: Seq<char>,
    slug: Seq<char>,
    kls: Seq<KeyedList>,
    seed: Option<Model>,
    fields: Seq<(Seq<char>, Model)>,
    a0: Seq<Model>,
)
    requires
        wf(m),
        get_path_spec(m, prefix, kls) == Ok::<Model, ErrorModel>(Model::Array(a0)),
    ensures
        add_keyed_spec(m, prefix, slug, kls, seed, fields) matches Ok(m2) ==> get_path_spec(m2, prefix, kls)
            == Ok::<Model, ErrorModel>(
            Model::Array(a0.push(Model::Object(new_element(seed, registration(kls, prefix)->Some_0, slug, fields)))),
        ),
{
    if let Some(f) = registration(kls, prefix) {
        if let Ok(segs) = parse_path_spec(prefix) {
            let elem = Model::Object(new_element(seed, f, slug, fields));
            if !slug.contains('.') && add_keyed_walk(m, segs, 0, f, slug, prefix, elem) is Ok {
                lemma_split_path_nonempty(prefix);
                lemma_keyed_add_appends(m, segs, 0, f, slug, prefix, elem, kls, prefix, a0);
            }
        }
    }
}

proof fn lemma_keyed_add_refuses_present(
    m: Model,
    segs: Seq<Seq<char>>,
    i: int,
    f: Seq<char>,
    slug: Seq<char>,
    prefix: Seq<char>,
    elem: Model,
    kls: Seq<KeyedList>,
    full: Seq<char>,
    a0: Seq<Model>,
    x: int,
)
    requires
        0 <= i < segs.len(),
        get_walk(m, segs, i, kls, full) == Ok::<Model, ErrorModel>(Model::Array(a0)),
        0 <= x < a0.len(),
        has_slug(a0[x], f, slug),
    ensures
        add_keyed_walk(m, segs, i, f, slug, prefix, elem) matches Err(e) && (e == (ErrorModel::SlugAlreadyExists {
            prefix,
            slug,
        }) || e is NotTraversable),
    decreases segs.len() - i,
{
    let k = segs[i];
    if let Model::Object(e) = m {
        let c = obj_get(e, k)->Some_0;
        if i + 1 == segs.len() {
            assert(get_walk(c, segs, i + 1, kls, full) == Ok::<Model, ErrorModel>(c));
            assert(has_slug(a0[x], f, slug));
            lemma_slug_index(a0, f, slug);
        } else {
            lemma_keyed_add_refuses_present(c, segs, i + 1, f, slug, prefix, elem, kls, full, a0, x);
        }
    }
}

/// Adding a slug that some element of an existing keyed list already holds never succeeds,
/// whatever the seed and fields: it is refused as already existing, or, where the list's
/// path goes through an array, as not traversable.
pub proof fn law_keyed_add_refuses_present_slug(
    m: Model,
    prefix: Seq<char>,
    slug: Seq<char>,
    kls: Seq<KeyedList>,
    seed: Option<Model>,
    fields: Seq<(Seq<char>, Model)>,
    a0: Seq<Model>,
    x: int,
)
    requires
        get_path_spec(m, prefix, kls) == Ok::<Model, ErrorModel>(Model::Array(a0)),
        registration(kls, prefix) is Some,
        !slug.contains('.'),
        0 <= x < a0.len(),
        has_slug(a0[x], registration(kls, prefix)->Some_0, slug),
    ensures
        add_keyed_spec(m, prefix, slug, kls, seed, fields) matches Err(e) && (e == (ErrorModel::SlugAlreadyExists {
            prefix,
            slug,
        }) || e is NotTraversable),
{
    let f = registration(kls, prefix)->Some_0;
    let segs = parse_path_spec(prefix)->Ok_0;
    lemma_split_path_nonempty(prefix);
    let elem = Model::Object(new_element(seed, f, slug, fields));
    lemma_keyed_add_refuses_present(m, segs, 0, f, slug, prefix, elem, kls, prefix, a0, x);
}

proof fn lemma_keyed_add_frame(
    m: Model,
    p: Seq<Seq<char>>,
    q: Seq<Seq<char>>,
    i: int,
    f: Seq<char>,
    slug: Seq<char>,
    prefix: Seq<char>,
    elem: Model,
    kls: Seq<KeyedList>,
    full: Seq<char>,
)
    requires
        wf(m),
        paths_part(m, p, q, i, false),
        add_keyed_walk(m, p, i, f, slug, prefix, elem) is Ok,
    ensures
        get_walk(add_keyed_walk(m, p, i, f, slug, prefix, elem)->Ok_0, q, i, kls, full) == get_walk(m, q, i, kls, full),
    decreases p.len() - i,
{
    if let Model::Object(e) = m {
        lemma_wf_get(e, p[i]);
        if i + 1 == p.len() {
            if p[i] == q[i] {
                let c = obj_get(e, p[i])->Some_0;
                assert(paths_part(c, p, q, i + 1, false));
            }
            let target = match obj_get(e, p[i]) {
                Some(t) => t,
                None => Model::Array(Seq::empty()),
            };
            let a = target->Array_0;
            lemma_obj_insert_get(e, p[i], Model::Array(a.push(elem)), q[i]);
        } else {
            let c = match obj_get(e, p[i]) {
                Some(c) => c,
                None => Model::Object(Seq::empty()),
            };
            let c2 = add_keyed_walk(c, p, i + 1, f, slug, prefix, elem)->Ok_0;
            lemma_obj_insert_get(e, p[i], c2, q[i]);
            if p[i] == q[i] {
                assert(paths_part(c, p, q, i + 1, false));
                lemma_keyed_add_frame(c, p, q, i + 1, f, slug, prefix, elem, kls, full);
                assert(get_walk(m, q, i, kls, full) == get_walk(c, q, i + 1, kls, full));
            }
        }
    }
}

/// Adding to a keyed list leaves the value at every other path alone: reading a path that
/// parts from the list's path at an object key, after the keys they share, gives what it
/// gave before.
pub proof fn law_keyed_add_keeps_other_paths(
    m: Model,
    prefix: Seq<char>,
    q: Seq<char>,
    slug: Seq<char>,
    kls: Seq<KeyedList>,
    seed: Option<Model>,
    fields: Seq<(Seq<char>, Model)>,
)
    requires
        wf(m),
        parse_path_spec(prefix) is Ok,
        parse_path_spec(q) is Ok,
        paths_part(m, parse_path_spec(prefix)->Ok_0, parse_path_spec(q)->Ok_0, 0, false),
    ensures
        add_keyed_spec(m, prefix, slug, kls, seed, fields) matches Ok(m2) ==> get_path_spec(m2, q, kls) == get_path_spec(m, q, kls),
{
    if let Some(f) = registration(kls, prefix) {
        let segs = parse_path_spec(prefix)->Ok_0;
        let qs = parse_path_spec(q)->Ok_0;
        let elem = Model::Object(new_element(seed, f, slug, fields));
        if !slug.contains('.') && add_keyed_walk(m, segs, 0, f, slug, prefix, elem) is Ok {
            lemma_keyed_add_frame(m, segs, qs, 0, f, slug, prefix, elem, kls, q);
        }
    }
}

proof fn lemma_keyed_remove_frame(
    m: Model,
    p: Seq<Seq<char>>,
    q: Seq<Seq<char>>,
    i: int,
    f: Seq<char>,
    slug: Seq<char>,
    prefix: Seq<char>,
    kls: Seq<KeyedList>,
    full: Seq<char>,
)
    requires
        wf(m),
        paths_part(m, p, q, i, false),
        remove_keyed_walk(m, p, i, f, slug, prefix) is Ok,
    ensures
        get_walk(remove_keyed_walk(m, p, i, f, slug, prefix)->Ok_0, q, i, kls, full) == get_walk(m, q, i, kls, full),
    decreases p.len() - i,
{
    if let Model::Object(e) = m {
        lemma_wf_get(e, p[i]);
        let c = obj_get(e, p[i])->Some_0;
        if i + 1 == p.len() {
            if p[i] == q[i] {
                assert(paths_part(c, p, q, i + 1, false));
            }
            let a = c->Array_0;
            lemma_obj_insert_get(e, p[i], Model::Array(without_slug(a, f, slug)), q[i]);
        } else {
            let c2 = remove_keyed_walk(c, p, i + 1, f, slug, prefix)->Ok_0;
            lemma_obj_insert_get(e, p[i], c2, q[i]);
            if p[i] == q[i] {
                assert(paths_part(c, p, q, i + 1, false));
                lemma_keyed_remove_frame(c, p, q, i + 1, f, slug, prefix, kls, full);
                assert(get_walk(m, q, i, kls, full) == get_walk(c, q, i + 1, kls, full));
            }
        }
    }
}

/// Removing from a keyed list leaves the value at every other path alone: reading a path
/// that parts from the list's path at an object key, after the keys they share, gives what
/// it gave before.
pub proof fn law_keyed_remove_keeps_other_paths(
    m: Model,
    prefix: Seq<char>,
    q: Seq<char>,
    slug: Seq<char>,
    kls: Seq<KeyedList>,
)
    requires
        wf(m),
        parse_path_spec(prefix) is Ok,
        parse_path_spec(q) is Ok,
        paths_part(m, parse_path_spec(prefix)->Ok_0, parse_path_spec(q)->Ok_0, 0, false),
    ensures
        remove_keyed_spec(m, prefix, slug, kls) matches Ok(m2) ==> get_path_spec(m2, q, kls) == get_path_spec(m, q, kls),
{
    if let Some(f) = registration(kls, prefix) {
        let segs = parse_path_spec(prefix)->Ok_0;
        let qs = parse_path_spec(q)->Ok_0;
        if remove_keyed_walk(m, segs, 0, f, slug, prefix) is Ok {
            lemma_keyed_remove_frame(m, segs, qs, 0, f, slug, prefix, kls, q);
        }
    }
}

proof fn lemma_remove_element(
    m: Model,
    segs: Seq<Seq<char>>,
    i: int,
    kls: Seq<KeyedList>,
    full: Seq<char>,
    a: Seq<Model>,
)
    requires
        wf(m),
        0 <= i < segs.len(),
        get_walk(m, segs.drop_last(), i, kls, full) == Ok::<Model, ErrorModel>(Model::Array(a)),
        parse_usize_spec(segs.last()) is Some,
        remove_path_walk(m, segs, i) is Ok,
    ensures
        get_walk(remove_path_walk(m, segs, i)->Ok_0, segs.drop_last(), i, kls, full) == Ok::<Model, ErrorModel>(
            Model::Array(a.remove(parse_usize_spec(segs.last())->Some_0 as int)),
        ),
    decreases segs.len() - i,
{
    let ps = segs.drop_last();
    let k = segs[i];
    if i + 1 == segs.len() {
        assert(m == Model::Array(a));
        let r = Model::Array(a.remove(parse_usize_spec(segs.last())->Some_0 as int));
        assert(get_walk(r, ps, i, kls, full) == Ok::<Model, ErrorModel>(r));
    } else {
        assert(ps[i] == k);
        match m {
            Model::Object(e) => {
                lemma_wf_get(e, k);
                let c = obj_get(e, k)->Some_0;
                let c2 = remove_path_walk(c, segs, i + 1)->Ok_0;
                lemma_obj_insert_get(e, k, c2, k);
                lemma_remove_element(c, segs, i + 1, kls, full, a);
            },
            Model::Array(arr) => {
                let n = parse_usize_spec(k)->Some_0 as int;
                lemma_wf_index(arr, n);
                let c2 = remove_path_walk(arr[n], segs, i + 1)->Ok_0;
                assert(arr.update(n, c2)[n] == c2);
                lemma_remove_element(arr[n], segs, i + 1, kls, full, a);
            },
            _ => {},
        }
    }
}

/// Removing an array element by its position takes it out of the array, and the elements
/// after it move up: reading the array's path then gives the array without that element.
pub proof fn law_remove_element_shifts(m: Model, p: Seq<char>, parent: Seq<char>, kls: Seq<KeyedList>, a: Seq<Model>)
    requires
        wf(m),
        parse_path_spec(p) is Ok,
        parse_path_spec(parent) == Ok::<Seq<Seq<char>>, ErrorModel>(parse_path_spec(p)->Ok_0.drop_last()),
        parse_usize_spec(parse_path_spec(p)->Ok_0.last()) is Some,
        get_path_spec(m, parent, kls) == Ok::<Model, ErrorModel>(Model::Array(a)),
    ensures
        remove_path_spec(m, p) matches Ok(m2) ==> get_path_spec(m2, parent, kls) == Ok::<Model, ErrorModel>(
            Model::Array(a.remove(parse_usize_spec(parse_path_spec(p)->Ok_0.last())->Some_0 as int)),
        ),
{
    let segs = parse_path_spec(p)->Ok_0;
    lemma_split_path_nonempty(parent);
    if remove_path_walk(m, segs, 0) is Ok {
        lemma_remove_element(m, segs, 0, kls, parent, a);
    }
}

/// Sections strictly ascending.
pub open spec fn ascending(s: Seq<Seq<char>>) -> bool {
    forall|i: int, j: int| 0 <= i < j < s.len() ==> key_lt(#[trigger] s[i], #[trigger] s[j])
}

proof fn lemma_insert_sorted(s: Seq<Seq<char>>, x: Seq<char>)
    requires
        ascending(s),
    ensures
        ascending(insert_sorted(s, x)),
        forall|y: Seq<char>| insert_sorted(s, x).contains(y) <==> (s.contains(y) || y == x),
{
    lemma_first_not_below(s, x);
    let p = first_not_below(s, x);
    if !(p < s.len() && s[p] == x) {
        let t = s.insert(p, x);
        if p < s.len() {
            lemma_key_lt_total(s[p], x);
        }
        assert forall|i: int, j: int| 0 <= i < j < t.len() implies key_lt(#[trigger] t[i], #[trigger] t[j]) by {
            if j < p {
                assert(t[i] == s[i] && t[j] == s[j]);
            } else if j == p {
                assert(t[i] == s[i]);
            } else if i < p {
                assert(t[i] == s[i] && t[j] == s[j - 1]);
                assert(key_lt(s[i], x));
                if j - 1 > p {
                    assert(key_lt(s[p], s[j - 1]));
                    lemma_key_lt_transitive(x, s[p], s[j - 1]);
                }
                lemma_key_lt_transitive(s[i], x, s[j - 1]);
            } else if i == p {
                assert(t[j] == s[j - 1]);
                if j - 1 > p {
                    assert(key_lt(s[p], s[j - 1]));
                    lemma_key_lt_transitive(x, s[p], s[j - 1]);
                }
            } else {
                assert(t[i] == s[i - 1] && t[j] == s[j - 1]);
            }
        }
        assert forall|y: Seq<char>| t.contains(y) <==> (s.contains(y) || y == x) by {
            if s.contains(y) {
                let k = choose|k: int| 0 <= k < s.len() && s[k] == y;
                if k < p {
                    assert(t[k] == y);
                } else {
                    assert(t[k + 1] == y);
                }
            }
            if y == x {
                assert(t[p] == x);
            }
            if t.contains(y) {
                let k = choose|k: int| 0 <= k < t.len() && t[k] == y;
                if k < p {
                    assert(s[k] == y);
                } else if k > p {
                    assert(s[k - 1] == y);
                }
            }
        }
    }
}

/// The markdown reference has one section per distinct first path segment of the fields,
/// in ascending order: the sections are strictly ascending, each field's section is among
/// them, and each of them is some field's section.
pub proof fn law_markdown_sections(fields: Seq<FieldDef>)
    ensures
        ascending(sections(fields)),
        forall|k: int| 0 <= k < fields.len() ==> sections(fields).contains(#[trigger] section_of(fields[k].path@)),
        forall|y: Seq<char>|
            #![trigger sections(fields).contains(y)]
            sections(fields).contains(y) ==> exists|k: int| 0 <= k < fields.len() && section_of(fields[k].path@) == y,
    decreases fields.len(),
{
    if fields.len() > 0 {
        let f0 = fields.drop_last();
        law_markdown_sections(f0);
        let x = section_of(fields.last().path@);
        lemma_insert_sorted(sections(f0), x);
        assert forall|k: int| 0 <= k < fields.len() implies sections(fields).contains(#[trigger] section_of(fields[k].path@)) by {
            if k < fields.len() - 1 {
                assert(fields[k] == f0[k]);
                assert(sections(f0).contains(section_of(f0[k].path@)));
            }
        }
        assert forall|y: Seq<char>| #[trigger] sections(fields).contains(y) implies exists|k: int|
            0 <= k < fields.len() && section_of(fields[k].path@) == y by {
            if sections(f0).contains(y) {
                let k = choose|k: int| 0 <= k < f0.len() && section_of(f0[k].path@) == y;
                assert(fields[k] == f0[k]);
            } else {
                assert(section_of(fields[fields.len() - 1].path@) == y);
            }
        }
    }
}

/// With no fields the markdown reference is its title line alone.
pub proof fn law_markdown_without_fields(title: Seq<char>)
    ensures
        doc_markdown(title, Seq::empty()) == "# "@ + title + " Configuration Reference\n\n"@,
{
    assert(sections(Seq::<FieldDef>::empty()) =~= Seq::<Seq<char>>::empty());
    assert(("# "@ + title + " Configuration Reference\n\n"@) + Seq::<char>::empty() =~= "# "@ + title
        + " Configuration Reference\n\n"@);
}

/// Reading the path that some non-empty segments make gives those segments back: `\.` and
/// `\\` keep dots and backslashes inside a key.
pub proof fn law_parse_after_join(segs: Seq<Seq<char>>)
    requires
        segs.len() >= 1,
        segments_nonempty(segs),
    ensures
        parse_path_spec(join_segments(segs)) == Ok::<Seq<Seq<char>>, ErrorModel>(segs),
{
    lemma_split_join(segs);
    assert(segs[0].len() > 0);
    assert(escape(segs[0]).len() > 0) by {
        assert(escape(segs[0]) == crate::path::escape_char(segs[0][0]) + escape(segs[0].drop_first()));
    }
    if segs.len() > 1 {
        assert(join_segments(segs) == escape(segs[0]) + seq!['.'] + join_segments(segs.drop_first()));
    }
}

/// Writing back the segments that a path reads to gives that path.
pub proof fn law_join_after_parse(p: Seq<char>)
    ensures
        parse_path_spec(p) matches Ok(segs) ==> join_segments(segs) == p,
{
    lemma_join_split(p);
}

/// The array a read of `segs` from segment `i` finds at `m`, or nothing.
pub open spec fn array_at(m: Model, segs: Seq<Seq<char>>, i: int, kls: Seq<KeyedList>, full: Seq<char>) -> Seq<Model> {
    match get_walk(m, segs, i, kls, full) {
        Ok(Model::Array(a)) => a,
        _ => Seq::empty(),
    }
}

proof fn lemma_add_then_get(m: Model, segs: Seq<Seq<char>>, i: int, items: Seq<Model>, kls: Seq<KeyedList>, full: Seq<char>)
    requires
        wf(m),
        0 <= i < segs.len(),
        add_walk(m, segs, i, items) is Ok,
    ensures
        get_walk(add_walk(m, segs, i, items)->Ok_0, segs, i, kls, full) == Ok::<Model, ErrorModel>(
            Model::Array(array_at(m, segs, i, kls, full) + items),
        ),
    decreases segs.len() - i,
{
    let k = segs[i];
    if let Model::Object(e) = m {
        lemma_wf_get(e, k);
        if i + 1 == segs.len() {
            match obj_get(e, k) {
                None => {
                    lemma_obj_insert_get(e, k, Model::Array(items), k);
                    assert(Seq::<Model>::empty() + items =~= items);
                    assert(get_walk(Model::Array(items), segs, i + 1, kls, full) == Ok::<Model, ErrorModel>(Model::Array(items)));
                },
                Some(t) => {
                    let a = t->Array_0;
                    lemma_obj_insert_get(e, k, Model::Array(a + items), k);
                    assert(get_walk(t, segs, i + 1, kls, full) == Ok::<Model, ErrorModel>(t));
                    assert(get_walk(Model::Array(a + items), segs, i + 1, kls, full) == Ok::<Model, ErrorModel>(
                        Model::Array(a + items),
                    ));
                },
            }
        } else {
            let c = match obj_get(e, k) {
                Some(c) => c,
                None => Model::Object(Seq::empty()),
            };
            assert(wf(Model::Object(Seq::<(Seq<char>, Model)>::empty())));
            lemma_add_then_get(c, segs, i + 1, items, kls, full);
            let c2 = add_walk(c, segs, i + 1, items)->Ok_0;
            lemma_obj_insert_get(e, k, c2, k);
            if obj_get(e, k) is None {
                assert(obj_find(Seq::<(Seq<char>, Model)>::empty(), segs[i + 1]) is None);
                assert(array_at(c, segs, i + 1, kls, full) == Seq::<Model>::empty());
            }
        }
    }
}

/// Appending values to the array at a path leaves there the array it held (none when the
/// path was missing) followed by the values, coerced by shape.
pub proof fn law_get_after_add_scalar(m: Model, p: Seq<char>, vals: Seq<Seq<char>>, kls: Seq<KeyedList>, js: Seq<Option<Model>>)
    requires
        wf(m),
    ensures
        add_scalar_spec(m, p, vals, js) matches Ok(m2) ==> get_path_spec(m2, p, kls) == Ok::<Model, ErrorModel>(
            Model::Array(
                match get_path_spec(m, p, kls) {
                    Ok(Model::Array(a)) => a,
                    _ => Seq::empty(),
                } + coerce_each_spec(vals, js),
            ),
        ),
{
    if let Ok(segs) = parse_path_spec(p) {
        lemma_split_path_nonempty(p);
        if add_walk(m, segs, 0, coerce_each_spec(vals, js)) is Ok {
            lemma_add_then_get(m, segs, 0, coerce_each_spec(vals, js), kls, p);
        }
    }
}

proof fn lemma_without_items(a: Seq<Model>, items: Seq<Model>)
    ensures
        forall|x: int| 0 <= x < without_items(a, items).len() ==> !items.contains(#[trigger] without_items(a, items)[x]),
    decreases a.len(),
{
    if a.len() > 0 {
        lemma_without_items(a.drop_last(), items);
        let w = without_items(a.drop_last(), items);
        if !items.contains(a.last()) {
            assert forall|x: int| 0 <= x < w.push(a.last()).len() implies !items.contains(#[trigger] w.push(a.last())[x]) by {
                if x < w.len() {
                    assert(w.push(a.last())[x] == w[x]);
                }
            }
        }
    }
}

proof fn lemma_remove_scalar_then_get(m: Model, segs: Seq<Seq<char>>, i: int, items: Seq<Model>, kls: Seq<KeyedList>, full: Seq<char>)
    requires
        wf(m),
        0 <= i < segs.len(),
        remove_scalar_walk(m, segs, i, items) is Ok,
    ensures
        get_walk(remove_scalar_walk(m, segs, i, items)->Ok_0, segs, i, kls, full) == Ok::<Model, ErrorModel>(
            Model::Array(without_items(array_at(m, segs, i, kls, full), items)),
        ),
    decreases segs.len() - i,
{
    let k = segs[i];
    if let Model::Object(e) = m {
        lemma_wf_get(e, k);
        let c = obj_get(e, k)->Some_0;
        if i + 1 == segs.len() {
            let a = c->Array_0;
            lemma_obj_insert_get(e, k, Model::Array(without_items(a, items)), k);
            assert(get_walk(c, segs, i + 1, kls, full) == Ok::<Model, ErrorModel>(c));
            assert(get_walk(Model::Array(without_items(a, items)), segs, i + 1, kls, full) == Ok::<Model, ErrorModel>(
                Model::Array(without_items(a, items)),
            ));
        } else {
            lemma_remove_scalar_then_get(c, segs, i + 1, items, kls, full);
            let c2 = remove_scalar_walk(c, segs, i + 1, items)->Ok_0;
            lemma_obj_insert_get(e, k, c2, k);
        }
    }
}

/// Removing values from the array at a path leaves there the elements it held that equal
/// none of the values, coerced by shape, in their order; so none of the values is left.
pub proof fn law_get_after_remove_scalar(m: Model, p: Seq<char>, vals: Seq<Seq<char>>, kls: Seq<KeyedList>, js: Seq<Option<Model>>)
    requires
        wf(m),
    ensures
        remove_scalar_spec(m, p, vals, js) matches Ok(m2) ==> {
            &&& get_path_spec(m, p, kls) matches Ok(Model::Array(a))
            &&& get_path_spec(m2, p, kls) == Ok::<Model, ErrorModel>(Model::Array(without_items(a, coerce_each_spec(vals, js))))
            &&& forall|x: int|
                0 <= x < without_items(a, coerce_each_spec(vals, js)).len() ==> !coerce_each_spec(vals, js).contains(
                    #[trigger] without_items(a, coerce_each_spec(vals, js))[x],
                )
        },
{
    if let Ok(segs) = parse_path_spec(p) {
        lemma_split_path_nonempty(p);
        let items = coerce_each_spec(vals, js);
        if remove_scalar_walk(m, segs, 0, items) is Ok {
            lemma_remove_scalar_then_get(m, segs, 0, items, kls, p);
            lemma_remove_scalar_found(m, segs, 0, items, kls, p);
            lemma_without_items(array_at(m, segs, 0, kls, p), items);
        }
    }
}

/// A removal of values that succeeds found an array at the path.
proof fn lemma_remove_scalar_found(m: Model, segs: Seq<Seq<char>>, i: int, items: Seq<Model>, kls: Seq<KeyedList>, full: Seq<char>)
    requires
        0 <= i < segs.len(),
        remove_scalar_walk(m, segs, i, items) is Ok,
    ensures
        get_walk(m, segs, i, kls, full) matches Ok(Model::Array(a)) && a == array_at(m, segs, i, kls, full),
    decreases segs.len() - i,
{
    let k = segs[i];
    if let Model::Object(e) = m {
        let c = obj_get(e, k)->Some_0;
        if i + 1 == segs.len() {
            assert(get_walk(c, segs, i + 1, kls, full) == Ok::<Model, ErrorModel>(c));
        } else {
            lemma_remove_scalar_found(c, segs, i + 1, items, kls, full);
        }
    }
}

/// Type-directed coercion honors an explicit type prefix whatever the target holds, and
/// otherwise `null` in any case of letters clears the value.
pub proof fn law_prefix_and_null_win(s: Seq<char>, e1: Option<Model>, e2: Option<Model>, j: Option<Model>)
    ensures
        explicit_prefix_spec(s, j) matches Some(v) ==> coerce_typed_spec(s, e1, j) == v && coerce_typed_spec(s, e2, j) == v
            && coerce_scalar_spec(s, j) == v,
        explicit_prefix_spec(s, j) is None && is_null_text(s) ==> coerce_typed_spec(s, e1, j) == Model::Null
            && coerce_scalar_spec(s, j) == Model::Null,
{
}

/// The decimal text of `n` is a non-empty run of digits that denotes `n`.
proof fn lemma_nat_text(n: nat)
    ensures
        nat_text(n).len() > 0,
        all_digits(nat_text(n)),
        digits_value(nat_text(n)) == n,
    decreases n,
{
    let t = nat_text(n);
    if n < 10 {
        assert(t.drop_last() =~= Seq::<char>::empty());
        assert(digit_char(n) as int == n + 48);
        assert(digits_value(Seq::<char>::empty()) == 0);
        assert(digits_value(t) == digits_value(t.drop_last()) * 10 + ((t.last() as int - 48) as nat));
    } else {
        lemma_nat_text(n / 10);
        let d = digit_char(n % 10);
        assert(d as int == n % 10 + 48);
        assert(t.drop_last() =~= nat_text(n / 10));
        assert(t.last() == d);
        assert forall|i: int| 0 <= i < t.len() implies #[trigger] is_digit(t[i]) by {
            if i < t.len() - 1 {
                assert(t[i] == nat_text(n / 10)[i]);
            }
        }
        assert(n / 10 * 10 + n % 10 == n);
        assert(digits_value(t) == digits_value(t.drop_last()) * 10 + ((t.last() as int - 48) as nat));
    }
}

/// `str::parse::<i64>` reads the decimal text of any `i64` back as that number.
proof fn lemma_parse_int_text(i: i64)
    ensures
        parse_i64_spec(int_text(i as int)) == Some(i),
        int_text(i as int).len() > 0,
        int_text(i as int)[0] == '-' || is_digit(int_text(i as int)[0]),
        int_text(i as int).len() > 1 ==> is_digit(int_text(i as int)[1]),
{
    let t = int_text(i as int);
    if i < 0 {
        let n = (-(i as int)) as nat;
        lemma_nat_text(n);
        assert(t.drop_first() =~= nat_text(n));
        assert(t[1] == nat_text(n)[0]);
        assert(unsigned_part(t, true) == (true, nat_text(n)));
    } else {
        lemma_nat_text(i as nat);
        assert(is_digit(t[0]));
        if t.len() > 1 {
            assert(is_digit(t[1]));
        }
        assert(unsigned_part(t, true) == (false, t));
    }
}

/// The exponent mark that `exp_index` finds, when it finds one, lies inside the text.
proof fn lemma_exp_index_bounds(t: Seq<char>, p: int)
    requires
        0 <= p <= t.len(),
        forall|j: int| 0 <= j < p ==> !(#[trigger] t[j] == 'e' || t[j] == 'E'),
    ensures
        exp_index(t) matches Some(e) ==> 0 <= e < t.len(),
    decreases t.len() - p,
{
    if p < t.len() {
        if t[p] == 'e' || t[p] == 'E' {
            lemma_exp_index_at(t, p);
        } else {
            lemma_exp_index_bounds(t, p + 1);
        }
    }
}

/// Shape-based coercion, with no target type, reads the words `true` and `false` in any case
/// of letters as booleans, the decimal text of any `i64` as that integer, and a text shaped
/// as a JSON array or object as what the JSON parser makes of that very text (a string when
/// the parser refuses it).
#[verifier::rlimit(40)]
pub proof fn law_shape_coercion(s: Seq<char>, j: Option<Model>, i: i64)
    ensures
        lower_seq(s) == seq!['t', 'r', 'u', 'e'] ==> coerce_scalar_spec(s, j) == Model::Bool(true),
        lower_seq(s) == seq!['f', 'a', 'l', 's', 'e'] ==> coerce_scalar_spec(s, j) == Model::Bool(false),
        coerce_scalar_spec(int_text(i as int), j) == Model::Integer(i),
        json_shaped(s) ==> scalar_json_text(s) == Some(s) && coerce_scalar_spec(s, j) == match j {
            Some(m) => m,
            None => Model::Str(s),
        },
{
    if lower_seq(s) == seq!['t', 'r', 'u', 'e'] || lower_seq(s) == seq!['f', 'a', 'l', 's', 'e'] {
        assert(s.len() == lower_seq(s).len());
        assert(s.len() >= 4);
        assert(lower_seq(s)[1] == lower(s[1]));
        assert(lower_seq(s)[0] == lower(s[0]));
        assert(!has_type_prefix(s, 's') && !has_type_prefix(s, 'b') && !has_type_prefix(s, 'i') && !has_type_prefix(s, 'j'));
        assert(!is_null_text(s));
    }
    let t = int_text(i as int);
    lemma_parse_int_text(i);
    assert(lower_seq(t)[0] == lower(t[0]));
    assert(!has_type_prefix(t, 's') && !has_type_prefix(t, 'b') && !has_type_prefix(t, 'i') && !has_type_prefix(t, 'j'));
    assert(!is_null_text(t));
    assert(lower_seq(t) != seq!['t', 'r', 'u', 'e']);
    assert(lower_seq(t) != seq!['f', 'a', 'l', 's', 'e']);
    if json_shaped(s) {
        assert(lower_seq(s)[0] == lower(s[0]));
        assert(!has_type_prefix(s, 's') && !has_type_prefix(s, 'b') && !has_type_prefix(s, 'i') && !has_type_prefix(s, 'j'));
        assert(!is_null_text(s));
        assert(lower_seq(s) != seq!['t', 'r', 'u', 'e']);
        assert(lower_seq(s) != seq!['f', 'a', 'l', 's', 'e']);
        assert(unsigned_part(s, true) == (false, s));
        assert(unsigned_part(s, false) == (false, s));
        assert(!is_digit(s[0]));
        assert(parse_i64_spec(s) is None);
        assert(parse_u64_spec(s) is None);
        assert(!special_float(s));
        lemma_exp_index_bounds(s, 0);
        match exp_index(s) {
            Some(e) => {
                if e > 0 {
                    assert(s.take(e)[0] == s[0]);
                }
                assert(!mantissa_ok(s.take(e)));
            },
            None => {
                assert(!mantissa_ok(s));
            },
        }
        assert(!float_literal(s));
    }
}

/// Type-directed coercion toward a container (an array or an object) or toward `null`
/// structures only a JSON array or object literal, which becomes what the JSON parser makes
/// of that very text; any other text, numbers and booleans included, stays a string.
pub proof fn law_typed_coercion_containers(s: Seq<char>, j: Option<Model>, a: Seq<Model>, o: Seq<(Seq<char>, Model)>)
    requires
        explicit_prefix_spec(s, j) is None,
        !is_null_text(s),
    ensures
        typed_json_text(s, Some(Model::Array(a))) == (if json_shaped(s) { Some(s) } else { None }),
        typed_json_text(s, Some(Model::Object(o))) == (if json_shaped(s) { Some(s) } else { None }),
        typed_json_text(s, Some(Model::Null)) == (if json_shaped(s) { Some(s) } else { None }),
        coerce_typed_spec(s, Some(Model::Array(a)), j) == (if json_shaped(s) && j is Some { j.unwrap() } else { Model::Str(s) }),
        coerce_typed_spec(s, Some(Model::Object(o)), j) == (if json_shaped(s) && j is Some { j.unwrap() } else { Model::Str(s) }),
        coerce_typed_spec(s, Some(Model::Null), j) == (if json_shaped(s) && j is Some { j.unwrap() } else { Model::Str(s) }),
{
}

/// Several values set at once make an array whose every element is coerced toward the type
/// of the first element of the array already there; where there is no such element, each
/// value without a type prefix stays a string (`null` still clears it).
pub proof fn law_multi_value_coercion(values: Seq<Seq<char>>, existing: Option<Model>, js: Seq<Option<Model>>)
    requires
        values.len() > 1,
        js.len() == values.len(),
    ensures
        coerce_values_typed_spec(values, existing, js) matches Ok(Model::Array(r)) && r.len() == values.len(),
        existing matches Some(Model::Array(a)) ==> (a.len() > 0 ==> forall|i: int| 0 <= i < values.len() ==>
            coerce_values_typed_spec(values, existing, js)->Ok_0->Array_0[i] == coerce_typed_spec(
                #[trigger] values[i], Some(a[0]), js[i])),
        !(existing matches Some(Model::Array(a)) && a.len() > 0) ==> forall|i: int|
            0 <= i < values.len() && explicit_prefix_spec(#[trigger] values[i], js[i]) is None
                && !is_null_text(values[i]) ==> coerce_values_typed_spec(values, existing, js)->Ok_0->Array_0[i]
                == Model::Str(values[i]),
{
}

/// The explicit type prefixes, whatever the target holds: `s:` keeps the rest as a string;
/// `b:` makes a boolean, true exactly for `true`, `yes`, `on` (in any case of letters) and
/// `1`; `i:` before the decimal text of an `i64` makes that integer; `j:` hands the rest to
/// the JSON parser and keeps the whole text as a string when the parser refuses it.
pub proof fn law_explicit_prefixes(rest: Seq<char>, e: Option<Model>, j: Option<Model>, i: i64)
    ensures
        coerce_typed_spec(seq!['s', ':'] + rest, e, j) == Model::Str(rest),
        coerce_typed_spec(seq!['b', ':'] + rest, e, j) == Model::Bool(
            lower_seq(rest) == seq!['t', 'r', 'u', 'e'] || lower_seq(rest) == seq!['y', 'e', 's'] || lower_seq(rest)
                == seq!['o', 'n'] || rest == seq!['1'],
        ),
        coerce_typed_spec(seq!['i', ':'] + int_text(i as int), e, j) == Model::Integer(i),
        typed_json_text(seq!['j', ':'] + rest, e) == Some(rest),
        coerce_typed_spec(seq!['j', ':'] + rest, e, j) == match j {
            Some(m) => m,
            None => Model::Str(seq!['j', ':'] + rest),
        },
{
    let ss = seq!['s', ':'] + rest;
    let sb = seq!['b', ':'] + rest;
    let si = seq!['i', ':'] + int_text(i as int);
    let sj = seq!['j', ':'] + rest;
    assert(ss.skip(2) =~= rest);
    assert(sb.skip(2) =~= rest);
    assert(si.skip(2) =~= int_text(i as int));
    assert(sj.skip(2) =~= rest);
    lemma_parse_int_text(i);
    assert(lower_seq(seq!['1']) == seq!['1']) by {
        assert(lower_seq(seq!['1']) =~= seq!['1']);
    }
    assert(lower_seq(rest) == seq!['1'] <==> rest == seq!['1']) by {
        if lower_seq(rest) == seq!['1'] {
            assert(rest.len() == 1);
            assert(lower_seq(rest)[0] == lower(rest[0]));
            assert(rest =~= seq!['1']);
        }
    }
}

/// A path never reads to an empty segment: the empty path, a path that starts with a dot,
/// and a path that starts with a backslash before anything but a dot or a backslash are all
/// refused.
pub proof fn law_path_refusals(p: Seq<char>, rest: Seq<char>, c: char)
    ensures
        parse_path_spec(p) matches Ok(segs) ==> segs.len() >= 1 && segments_nonempty(segs),
        parse_path_spec(Seq::empty()) == Err::<Seq<Seq<char>>, ErrorModel>(ErrorModel::EmptyPath),
        parse_path_spec(seq!['.'] + rest) is Err,
        c != '.' && c != '\\' ==> parse_path_spec(seq!['\\', c] + rest) is Err,
{
    lemma_split_path_nonempty(p);
    let q = seq!['.'] + rest;
    assert(q.drop_first() =~= rest);
    if let Some(r) = split_path(rest) {
        assert((seq![Seq::<char>::empty()] + r)[0].len() == 0);
    }
    let b = seq!['\\', c] + rest;
    assert(b[0] == '\\' && b[1] == c);
}

/// Coercion toward an absent target is shape-based coercion: it hands the same text to the
/// JSON parser and, from the same parse result, gives the same value; a single value is
/// coerced as a scalar.
pub proof fn law_untyped_coercion_is_shape(s: Seq<char>, e: Option<Model>, j: Option<Model>)
    ensures
        typed_json_text(s, None) == scalar_json_text(s),
        coerce_typed_spec(s, None, j) == coerce_scalar_spec(s, j),
        coerce_values_typed_spec(seq![s], e, seq![j]) == Ok::<Model, ErrorModel>(coerce_typed_spec(s, e, j)),
        coerce_values_spec(seq![s], seq![j]) == Ok::<Model, ErrorModel>(coerce_scalar_spec(s, j)),
{
}

/// The value of the last explicit field named `k`.
pub open spec fn last_field(fields: Seq<(Seq<char>, Model)>, k: Seq<char>) -> Option<Model>
    decreases fields.len(),
{
    if fields.len() == 0 {
        None
    } else if fields.last().0 == k {
        Some(fields.last().1)
    } else {
        last_field(fields.drop_last(), k)
    }
}

proof fn lemma_fields_layer_get(acc: Seq<(Seq<char>, Model)>, fields: Seq<(Seq<char>, Model)>, f: Seq<char>, k: Seq<char>)
    requires
        keys_sorted(acc),
        k != f,
    ensures
        obj_get(fields_layer(acc, fields, f), k) == match last_field(fields, k) {
            Some(v) => Some(v),
            None => obj_get(acc, k),
        },
    decreases fields.len(),
{
    if fields.len() > 0 {
        lemma_fields_layer_get(acc, fields.drop_last(), f, k);
        lemma_fields_layer(acc, fields.drop_last(), f);
        let r = fields_layer(acc, fields.drop_last(), f);
        if fields.last().0 != f {
            lemma_obj_insert_get(r, fields.last().0, fields.last().1, k);
        }
    }
}

proof fn lemma_seed_layer_get(e: Seq<(Seq<char>, Model)>, f: Seq<char>, k: Seq<char>)
    requires
        keys_sorted(e),
        k != f,
    ensures
        obj_get(seed_layer(e, f), k) == obj_get(e, k),
    decreases e.len(),
{
    if e.len() > 0 {
        let d = e.drop_last();
        assert(keys_sorted(d)) by {
            assert forall|i: int, j: int| 0 <= i < j < d.len() implies crate::value::key_lt(#[trigger] d[i].0, #[trigger] d[j].0) by {
                assert(d[i] == e[i] && d[j] == e[j]);
            }
        }
        lemma_seed_layer_get(d, f, k);
        lemma_seed_layer_sorted(d, f);
        assert(e == d.push(e.last()));
        lemma_obj_find_push(d, e.last(), k);
        if e.last().0 == k {
            lemma_obj_find(d, k);
            if let Some(i) = obj_find(d, k) {
                assert(crate::value::key_lt(e[i].0, e[e.len() - 1].0));
                lemma_key_lt_irreflexive(k);
            }
            lemma_obj_insert_get(seed_layer(d, f), k, e.last().1, k);
        } else {
            if e.last().0 != f {
                lemma_obj_insert_get(seed_layer(d, f), e.last().0, e.last().1, k);
            }
            lemma_obj_find(d, k);
            if let Some(i) = obj_find(d, k) {
                assert(d.push(e.last())[i] == d[i]);
            }
        }
    }
}

/// A new keyed-list element is built in layers: the slug field always holds the slug;
/// any other field holds the last explicit value given for it, and otherwise the seed's
/// value when the seed is an object.
pub proof fn law_element_layers(seed: Option<Model>, f: Seq<char>, slug: Seq<char>, fields: Seq<(Seq<char>, Model)>, k: Seq<char>)
    requires
        seed matches Some(sd) ==> wf(sd),
    ensures
        obj_get(new_element(seed, f, slug, fields), f) == Some(Model::Str(slug)),
        k != f ==> obj_get(new_element(seed, f, slug, fields), k) == match last_field(fields, k) {
            Some(v) => Some(v),
            None => match seed {
                Some(Model::Object(e)) => obj_get(e, k),
                _ => None,
            },
        },
{
    lemma_new_element_slug(seed, f, slug, fields);
    if k != f {
        let base = match seed {
            Some(Model::Object(e)) => seed_layer(e, f),
            _ => Seq::empty(),
        };
        if let Some(Model::Object(e)) = seed {
            lemma_seed_layer_sorted(e, f);
            lemma_wf_get(e, k);
            lemma_seed_layer_get(e, f, k);
        }
        lemma_obj_insert_sorted(base, f, Model::Str(slug));
        lemma_obj_insert_get(base, f, Model::Str(slug), k);
        lemma_fields_layer_get(obj_insert(base, f, Model::Str(slug)), fields, f, k);
    }
}

/// Type-directed coercion toward a scalar already stored keeps that scalar's type whenever
/// the text reads as it: toward a bool, a text that `str::parse::<bool>` accepts becomes that
/// bool; toward an integer, a decimal `i64` becomes that integer; toward an unsigned integer,
/// a decimal `u64`; toward a float, a text that `str::parse::<f64>` accepts becomes that float
/// (held as the text). A text that does not read as the type stays a string. An explicit
/// type prefix and `null` are left aside here: they win whatever the target holds.
pub proof fn law_typed_coercion_keeps_scalar_type(s: Seq<char>, j: Option<Model>, b0: bool, i0: i64, u0: u64, x0: Seq<char>)
    requires
        explicit_prefix_spec(s, j) is None,
        !is_null_text(s),
    ensures
        coerce_typed_spec(s, Some(Model::Bool(b0)), j) == match parse_bool_spec(s) {
            Some(b) => Model::Bool(b),
            None => Model::Str(s),
        },
        coerce_typed_spec(s, Some(Model::Integer(i0)), j) == match parse_i64_spec(s) {
            Some(i) => Model::Integer(i),
            None => Model::Str(s),
        },
        coerce_typed_spec(s, Some(Model::Unsigned(u0)), j) == match parse_u64_spec(s) {
            Some(u) => Model::Unsigned(u),
            None => Model::Str(s),
        },
        float_literal(s) ==> coerce_typed_spec(s, Some(Model::Float(x0)), j) == Model::Float(s),
        !float_literal(s) ==> coerce_typed_spec(s, Some(Model::Float(x0)), j) == Model::Str(s),
        coerce_typed_spec(s, Some(Model::Str(x0)), j) == Model::Str(s),
{
}

/// The positions `[p, p + n)` hold key characters and the next one does not.
proof fn lemma_key_end_run(s: Seq<char>, p: int, n: int)
    requires
        0 <= p,
        0 <= n,
        p + n <= s.len(),
        forall|i: int| p <= i < p + n ==> is_key_char(#[trigger] s[i]),
        p + n < s.len() ==> !is_key_char(s[p + n]),
    ensures
        key_end(s, p) == p + n,
    decreases n,
{
    if n > 0 {
        lemma_key_end_run(s, p + 1, n - 1);
    }
}

/// No position in `[p, p + n)` holds `c` and the next one, below `e`, does.
proof fn lemma_find_char_run(s: Seq<char>, p: int, e: int, c: char, n: int)
    requires
        0 <= n,
        p + n <= e,
        forall|i: int| p <= i < p + n ==> #[trigger] s[i] != c,
        p + n < e ==> s[p + n] == c,
    ensures
        find_char(s, p, e, c) == p + n,
    decreases n,
{
    if n > 0 {
        lemma_find_char_run(s, p + 1, e, c, n - 1);
    }
}

/// Without a blank in `[p, m)` no comment starts there when none was pending: the search
/// goes on from `m` as it began.
proof fn lemma_comment_start_skip(s: Seq<char>, p: int, m: int, e: int)
    requires
        p <= m <= e,
        forall|i: int| p <= i < m ==> !is_hws(#[trigger] s[i]),
    ensures
        comment_start(s, p, e, false) == comment_start(s, m, e, false),
    decreases m - p,
{
    if p < m {
        lemma_comment_start_skip(s, p + 1, m, e);
    }
}

/// A line that starts at `p` with `k=`, `k` a key, reads as an assignment to `k` of the value
/// that starts after the `=`, refused when `k` was assigned before.
proof fn lemma_dotenv_key_line_at(s: Seq<char>, p: int, k: Seq<char>, acc: Seq<(Seq<char>, Model)>)
    requires
        0 <= p,
        k.len() > 0,
        forall|i: int| 0 <= i < k.len() ==> is_key_char(#[trigger] k[i]),
        s.len() > p + k.len(),
        s.subrange(p, p + k.len()) == k,
        s[p + k.len()] == '=',
    ensures
        dot_value(s, p + k.len() + 1) matches Ok((v, next)) ==> dotenv_from(s, p, acc) == if obj_get(acc, k) is Some {
            Err(line_message(line_of(s, p), "duplicate key"@))
        } else {
            dotenv_from(s, next, obj_insert(acc, k, Model::Str(v)))
        },
{
    let kl = k.len() as int;
    assert forall|i: int| 0 <= i < kl implies s[p + i] == k[i] by {
        assert(s.subrange(p, p + kl)[i] == s[p + i]);
    }
    assert forall|i: int| p <= i < p + kl implies is_key_char(#[trigger] s[i]) by {
        assert(s[i] == k[i - p]);
    }
    assert(skip_hws(s, p) == p) by {
        assert(is_key_char(s[p]));
    }
    assert(!export_at(s, p)) by {
        reveal_strlit("export");
        if export_at(s, p) {
            if kl >= 7 {
                assert(is_key_char(s[p + 6]));
            } else if kl < 6 {
                assert(s.subrange(p, p + 6)[kl] == s[p + kl]);
                assert("export"@[kl] != '=');
            }
        }
    }
    lemma_key_end_run(s, p, kl);
    assert(skip_hws(s, p + kl) == p + kl);
}

/// A document that starts with `k=`, `k` a key, reads its first line as an assignment to `k`
/// of the value that starts after the `=`.
proof fn lemma_dotenv_key_line(s: Seq<char>, k: Seq<char>)
    requires
        k.len() > 0,
        forall|i: int| 0 <= i < k.len() ==> is_key_char(#[trigger] k[i]),
        s.len() > k.len(),
        s.subrange(0, k.len() as int) == k,
        s[k.len() as int] == '=',
    ensures
        dot_value(s, k.len() as int + 1) matches Ok((v, next)) ==> dotenv_from(s, 0, Seq::empty())
            == dotenv_from(s, next, seq![(k, Model::Str(v))]),
{
    lemma_dotenv_key_line_at(s, 0, k, Seq::empty());
    if let Ok((v, next)) = dot_value(s, k.len() as int + 1) {
        let acc = obj_insert(Seq::empty(), k, Model::Str(v));
        assert(acc =~= seq![(k, Model::Str(v))]);
    }
}

/// A dotenv assignment of an unquoted value without blanks keeps the value whole, a `#` in it
/// or at its start included: a `#` starts a comment only after a blank. So one such line
/// reads as the single string entry `k = v`.
pub proof fn law_dotenv_unquoted_value_kept(k: Seq<char>, v: Seq<char>)
    requires
        k.len() > 0,
        forall|i: int| 0 <= i < k.len() ==> is_key_char(#[trigger] k[i]),
        forall|i: int| 0 <= i < v.len() ==> !is_hws(#[trigger] v[i]) && v[i] != '\n',
        v.len() > 0 ==> v[0] != '"' && v[0] != '\'',
    ensures
        dotenv_load_spec(k + seq!['='] + v + seq!['\n']) == Ok::<Model, ErrorModel>(
            Model::Object(seq![(k, Model::Str(v))]),
        ),
{
    let s = k + seq!['='] + v + seq!['\n'];
    let kl = k.len() as int;
    let start = kl + 1;
    let e = start + v.len();
    assert(s.len() == e + 1);
    assert(s.subrange(0, kl) =~= k);
    assert forall|i: int| 0 <= i < v.len() implies s[start + i] == v[i] by {}
    assert(s[e] == '\n');
    lemma_dotenv_key_line(s, k);
    assert(skip_hws(s, start) == start) by {
        if v.len() > 0 {
            assert(s[start] == v[0]);
        }
    }
    assert forall|i: int| start <= i < e implies #[trigger] s[i] != '\n' && !is_hws(s[i]) by {
        assert(s[i] == v[i - start]);
    }
    lemma_find_char_run(s, start, s.len() as int, '\n', v.len() as int);
    assert(line_end(s, start) == e);
    lemma_comment_start_skip(s, start, e, e);
    if v.len() > 0 {
        assert(s[e - 1] == v[v.len() - 1]);
        assert(s[start] == v[0]);
    }
    assert(rtrim_end(s, start, e) == e);
    assert(s.subrange(start, e) =~= v);
    assert(dot_value(s, start) == Ok::<(Seq<char>, int), Seq<char>>((v, e)));
    let acc = seq![(k, Model::Str(v))];
    assert(skip_hws(s, e) == e);
    assert(dotenv_from(s, e + 1, acc) == Ok::<Seq<(Seq<char>, Model)>, Seq<char>>(acc));
    assert(dotenv_from(s, e, acc) == Ok::<Seq<(Seq<char>, Model)>, Seq<char>>(acc));
}

/// An assignment may be preceded by `export` and a blank: the word is dropped and the line
/// reads as the assignment alone.
pub proof fn law_dotenv_export(k: Seq<char>, v: Seq<char>)
    requires
        k.len() > 0,
        forall|i: int| 0 <= i < k.len() ==> is_key_char(#[trigger] k[i]),
        forall|i: int| 0 <= i < v.len() ==> !is_hws(#[trigger] v[i]) && v[i] != '\n',
        v.len() > 0 ==> v[0] != '"' && v[0] != '\'',
    ensures
        dotenv_load_spec("export "@ + k + seq!['='] + v + seq!['\n']) == Ok::<Model, ErrorModel>(
            Model::Object(seq![(k, Model::Str(v))]),
        ),
        dotenv_load_spec("export "@ + k + seq!['='] + v + seq!['\n']) == dotenv_load_spec(k + seq!['='] + v + seq!['\n']),
{
    law_dotenv_unquoted_value_kept(k, v);
    reveal_strlit("export ");
    reveal_strlit("export");
    let x = "export "@;
    assert(x.len() == 7);
    let s = x + k + seq!['='] + v + seq!['\n'];
    let q = 7int;
    let kl = k.len() as int;
    let m = q + kl;
    let start = m + 1;
    let e = start + v.len();
    assert(s.len() == e + 1);
    assert forall|i: int| 0 <= i < 7 implies s[i] == x[i] by {}
    assert forall|i: int| 0 <= i < kl implies s[q + i] == k[i] by {}
    assert forall|i: int| 0 <= i < v.len() implies s[start + i] == v[i] by {}
    assert(s[m] == '=' && s[e] == '\n');
    assert(s[6] == ' ');
    assert(skip_hws(s, 0) == 0) by {
        assert(s[0] == 'e');
    }
    assert(s.subrange(0, 6) =~= "export"@);
    assert(export_at(s, 0));
    assert(is_key_char(s[q]));
    assert(skip_hws(s, q) == q);
    assert(skip_hws(s, 6) == q);
    assert forall|i: int| q <= i < m implies is_key_char(#[trigger] s[i]) by {
        assert(s[i] == k[i - q]);
    }
    lemma_key_end_run(s, q, kl);
    assert(skip_hws(s, m) == m);
    assert(s.subrange(q, m) =~= k);
    assert(skip_hws(s, start) == start) by {
        if v.len() > 0 {
            assert(s[start] == v[0]);
        }
    }
    assert forall|i: int| start <= i < e implies #[trigger] s[i] != '\n' && !is_hws(s[i]) by {
        assert(s[i] == v[i - start]);
    }
    lemma_find_char_run(s, start, s.len() as int, '\n', v.len() as int);
    lemma_comment_start_skip(s, start, e, e);
    if v.len() > 0 {
        assert(s[e - 1] == v[v.len() - 1]);
        assert(s[start] == v[0]);
    }
    assert(rtrim_end(s, start, e) == e);
    assert(s.subrange(start, e) =~= v);
    assert(dot_value(s, start) == Ok::<(Seq<char>, int), Seq<char>>((v, e)));
    let acc = obj_insert(Seq::empty(), k, Model::Str(v));
    assert(acc =~= seq![(k, Model::Str(v))]);
    assert(skip_hws(s, e) == e);
    assert(dotenv_from(s, e + 1, acc) == Ok::<Seq<(Seq<char>, Model)>, Seq<char>>(acc));
    assert(dotenv_from(s, e, acc) == Ok::<Seq<(Seq<char>, Model)>, Seq<char>>(acc));
    assert(dotenv_from(s, 0, Seq::empty()) == Ok::<Seq<(Seq<char>, Model)>, Seq<char>>(acc));
}

/// A `#` that follows a blank starts an inline comment in an unquoted dotenv value: the value
/// is the text before the blank, and the comment's text, whatever it holds, is dropped.
pub proof fn law_dotenv_inline_comment(k: Seq<char>, v: Seq<char>, w: Seq<char>)
    requires
        k.len() > 0,
        forall|i: int| 0 <= i < k.len() ==> is_key_char(#[trigger] k[i]),
        v.len() > 0,
        forall|i: int| 0 <= i < v.len() ==> !is_hws(#[trigger] v[i]) && v[i] != '\n',
        v[0] != '"' && v[0] != '\'',
        forall|i: int| 0 <= i < w.len() ==> #[trigger] w[i] != '\n',
    ensures
        dotenv_load_spec(k + seq!['='] + v + seq![' ', '#'] + w + seq!['\n']) == Ok::<Model, ErrorModel>(
            Model::Object(seq![(k, Model::Str(v))]),
        ),
{
    let s = k + seq!['='] + v + seq![' ', '#'] + w + seq!['\n'];
    let kl = k.len() as int;
    let start = kl + 1;
    let b = start + v.len();
    let e = b + 2 + w.len();
    assert(s.len() == e + 1);
    assert(s.subrange(0, kl) =~= k);
    assert(s[kl] == '=');
    assert forall|i: int| 0 <= i < v.len() implies s[start + i] == v[i] by {}
    assert forall|i: int| 0 <= i < w.len() implies s[b + 2 + i] == w[i] by {}
    assert(s[b] == ' ' && s[b + 1] == '#');
    assert(s[e] == '\n');
    lemma_dotenv_key_line(s, k);
    assert(s[start] == v[0]);
    assert(skip_hws(s, start) == start);
    assert forall|i: int| start <= i < e implies #[trigger] s[i] != '\n' by {
        if i < b {
            assert(s[i] == v[i - start]);
        } else if i >= b + 2 {
            assert(s[i] == w[i - b - 2]);
        }
    }
    lemma_find_char_run(s, start, s.len() as int, '\n', e - start);
    assert(line_end(s, start) == e);
    assert forall|i: int| start <= i < b implies !is_hws(#[trigger] s[i]) by {
        assert(s[i] == v[i - start]);
    }
    lemma_comment_start_skip(s, start, b, e);
    assert(comment_start(s, b, e, false) == comment_start(s, b + 1, e, true));
    assert(comment_start(s, start, e, false) == b + 1);
    assert(s[b - 1] == v[v.len() - 1]);
    assert(rtrim_end(s, start, b) == b);
    assert(rtrim_end(s, start, b + 1) == b);
    assert(s.subrange(start, b) =~= v);
    assert(dot_value(s, start) == Ok::<(Seq<char>, int), Seq<char>>((v, e)));
    let acc = seq![(k, Model::Str(v))];
    assert(skip_hws(s, e) == e);
    assert(dotenv_from(s, e + 1, acc) == Ok::<Seq<(Seq<char>, Model)>, Seq<char>>(acc));
    assert(dotenv_from(s, e, acc) == Ok::<Seq<(Seq<char>, Model)>, Seq<char>>(acc));
}

/// A single-quoted dotenv value is taken literally: the text between the quotes, `#`,
/// blanks, backslashes and `$` included, is the value.
pub proof fn law_dotenv_single_quoted(k: Seq<char>, w: Seq<char>)
    requires
        k.len() > 0,
        forall|i: int| 0 <= i < k.len() ==> is_key_char(#[trigger] k[i]),
        forall|i: int| 0 <= i < w.len() ==> #[trigger] w[i] != '\'' && w[i] != '\n',
    ensures
        dotenv_load_spec(k + seq!['=', '\''] + w + seq!['\'', '\n']) == Ok::<Model, ErrorModel>(
            Model::Object(seq![(k, Model::Str(w))]),
        ),
{
    let s = k + seq!['=', '\''] + w + seq!['\'', '\n'];
    let kl = k.len() as int;
    let start = kl + 1;
    let q = start + 1 + w.len();
    let e = q + 1;
    assert(s.len() == e + 1);
    assert(s.subrange(0, kl) =~= k);
    assert(s[kl] == '=');
    assert(s[start] == '\'');
    assert forall|i: int| 0 <= i < w.len() implies s[start + 1 + i] == w[i] by {}
    assert(s[q] == '\'' && s[e] == '\n');
    lemma_dotenv_key_line(s, k);
    assert(skip_hws(s, start) == start);
    assert forall|i: int| start + 1 <= i < q implies #[trigger] s[i] != '\'' by {
        assert(s[i] == w[i - start - 1]);
    }
    lemma_find_char_run(s, start + 1, s.len() as int, '\'', w.len() as int);
    assert(skip_hws(s, e) == e);
    assert(quote_end_ok(s, e));
    lemma_find_char_run(s, e, s.len() as int, '\n', 0);
    assert(line_end(s, e) == e);
    assert(s.subrange(start + 1, q) =~= w);
    assert(dot_value(s, start) == Ok::<(Seq<char>, int), Seq<char>>((w, e)));
    let acc = seq![(k, Model::Str(w))];
    assert(dotenv_from(s, e + 1, acc) == Ok::<Seq<(Seq<char>, Model)>, Seq<char>>(acc));
    assert(dotenv_from(s, e, acc) == Ok::<Seq<(Seq<char>, Model)>, Seq<char>>(acc));
}

/// Inside double quotes a run of characters other than `"` and `\\` is read as written.
proof fn lemma_dq_plain(s: Seq<char>, p: int, n: int, acc: Seq<char>)
    requires
        0 <= p,
        0 <= n,
        p + n <= s.len(),
        forall|i: int| p <= i < p + n ==> #[trigger] s[i] != '"' && s[i] != '\\',
    ensures
        dq_scan(s, p, acc) == dq_scan(s, p + n, acc + s.subrange(p, p + n)),
    decreases n,
{
    if n > 0 {
        lemma_dq_plain(s, p + 1, n - 1, acc.push(s[p]));
        assert(acc.push(s[p]) + s.subrange(p + 1, p + n) =~= acc + s.subrange(p, p + n));
    } else {
        assert(acc + s.subrange(p, p) =~= acc);
    }
}

/// A double-quoted dotenv value decodes its escapes: `\\n` between two runs of plain text
/// stands for a line break, and the runs are kept as written, `#`, `'`, `$` and blanks
/// included.
pub proof fn law_dotenv_double_quoted_escape(k: Seq<char>, w1: Seq<char>, w2: Seq<char>)
    requires
        k.len() > 0,
        forall|i: int| 0 <= i < k.len() ==> is_key_char(#[trigger] k[i]),
        forall|i: int| 0 <= i < w1.len() ==> #[trigger] w1[i] != '"' && w1[i] != '\\',
        forall|i: int| 0 <= i < w2.len() ==> #[trigger] w2[i] != '"' && w2[i] != '\\',
    ensures
        dotenv_load_spec(k + seq!['=', '"'] + w1 + seq!['\\', 'n'] + w2 + seq!['"', '\n']) == Ok::<
            Model,
            ErrorModel,
        >(Model::Object(seq![(k, Model::Str(w1 + seq!['\n'] + w2))])),
{
    let s = k + seq!['=', '"'] + w1 + seq!['\\', 'n'] + w2 + seq!['"', '\n'];
    let kl = k.len() as int;
    let start = kl + 1;
    let a1 = start + 1 + w1.len();
    let b2 = a1 + 2;
    let q = b2 + w2.len();
    let e = q + 1;
    let v = w1 + seq!['\n'] + w2;
    assert(s.len() == e + 1);
    assert(s.subrange(0, kl) =~= k);
    assert(s[kl] == '=');
    assert(s[start] == '"');
    assert forall|i: int| 0 <= i < w1.len() implies s[start + 1 + i] == w1[i] by {}
    assert forall|i: int| 0 <= i < w2.len() implies s[b2 + i] == w2[i] by {}
    assert(s[a1] == '\\' && s[a1 + 1] == 'n' && s[q] == '"' && s[e] == '\n');
    lemma_dotenv_key_line(s, k);
    assert(skip_hws(s, start) == start);
    assert forall|i: int| start + 1 <= i < a1 implies #[trigger] s[i] != '"' && s[i] != '\\' by {
        assert(s[i] == w1[i - start - 1]);
    }
    lemma_dq_plain(s, start + 1, w1.len() as int, Seq::empty());
    assert(Seq::<char>::empty() + s.subrange(start + 1, a1) =~= w1);
    assert(dq_scan(s, a1, w1) == dq_scan(s, b2, w1 + seq!['\n']));
    assert forall|i: int| b2 <= i < q implies #[trigger] s[i] != '"' && s[i] != '\\' by {
        assert(s[i] == w2[i - b2]);
    }
    lemma_dq_plain(s, b2, w2.len() as int, w1 + seq!['\n']);
    assert(w1 + seq!['\n'] + s.subrange(b2, q) =~= v);
    assert(dq_scan(s, q, v) == Some((v, e)));
    assert(skip_hws(s, e) == e);
    assert(quote_end_ok(s, e));
    lemma_find_char_run(s, e, s.len() as int, '\n', 0);
    assert(dot_value(s, start) == Ok::<(Seq<char>, int), Seq<char>>((v, e)));
    let acc = seq![(k, Model::Str(v))];
    assert(dotenv_from(s, e + 1, acc) == Ok::<Seq<(Seq<char>, Model)>, Seq<char>>(acc));
    assert(dotenv_from(s, e, acc) == Ok::<Seq<(Seq<char>, Model)>, Seq<char>>(acc));
}

/// In an INI document a line whose text starts with `#` or `;` is a comment: it reads as
/// blank, whatever follows.
pub proof fn law_ini_comment_lines(t: Seq<char>)
    requires
        t.len() > 0,
        t[0] == '#' || t[0] == ';',
    ensures
        ini_line(t) == IniLine::Blank,
{
}

/// Trimming a text whose first character is not whitespace keeps that character first.
proof fn lemma_trim_end_first(t: Seq<char>)
    requires
        t.len() > 0,
        !is_ws(t[0]),
    ensures
        trim_end(t).len() > 0,
        trim_end(t)[0] == t[0],
    decreases t.len(),
{
    if is_ws(t.last()) {
        assert(t.len() > 1);
        assert(t.drop_last()[0] == t[0]);
        lemma_trim_end_first(t.drop_last());
    }
}

/// A text that neither starts nor ends with whitespace is its own trim.
proof fn lemma_trim_bare(t: Seq<char>)
    requires
        t.len() > 0 ==> !is_ws(t[0]) && !is_ws(t.last()),
    ensures
        trim(t) == t,
{
}

/// An INI document of a whole-line comment, one section header and one entry reads as that
/// section holding that entry: the comment, whatever its text, adds nothing.
#[verifier::rlimit(40)]
pub proof fn law_ini_section_entry(c: Seq<char>, n: Seq<char>, k: Seq<char>, v: Seq<char>)
    requires
        forall|i: int| 0 <= i < c.len() ==> #[trigger] c[i] != '\n',
        n.len() > 0,
        forall|i: int| 0 <= i < n.len() ==> #[trigger] n[i] != '\n',
        k.len() > 0,
        k[0] != ';' && k[0] != '#' && k[0] != '[',
        forall|i: int| 0 <= i < k.len() ==> !is_ws(#[trigger] k[i]) && k[i] != '=',
        forall|i: int| 0 <= i < v.len() ==> !is_ws(#[trigger] v[i]),
    ensures
        ini_load_spec(seq!['#'] + c + seq!['\n', '['] + n + seq![']', '\n'] + k + seq!['='] + v + seq!['\n'])
            == Ok::<Model, ErrorModel>(
            Model::Object(seq![(n, Model::Object(seq![(k, Model::Str(v))]))]),
        ),
{
    let s = seq!['#'] + c + seq!['\n', '['] + n + seq![']', '\n'] + k + seq!['='] + v + seq!['\n'];
    let e1: int = 1 + c.len() as int;
    let p2: int = e1 + 1;
    let r: int = p2 + 1 + n.len();
    let e2: int = r + 1;
    let p3: int = e2 + 1;
    let m: int = p3 + k.len();
    let e3: int = m + 1 + v.len();
    assert(s.len() == e3 + 1);
    assert forall|i: int| 0 <= i < c.len() implies s[1 + i] == c[i] by {}
    assert forall|i: int| 0 <= i < n.len() implies s[p2 + 1 + i] == n[i] by {}
    assert forall|i: int| 0 <= i < k.len() implies s[p3 + i] == k[i] by {}
    assert forall|i: int| 0 <= i < v.len() implies s[m + 1 + i] == v[i] by {}
    assert(s[0] == '#' && s[e1] == '\n' && s[p2] == '[' && s[r] == ']' && s[e2] == '\n');
    assert(s[m] == '=' && s[e3] == '\n');
    // The comment line.
    assert forall|i: int| 0 <= i < e1 implies #[trigger] s[i] != '\n' by {
        if i > 0 {
            assert(s[i] == c[i - 1]);
        }
    }
    lemma_find_char_run(s, 0, s.len() as int, '\n', e1);
    assert(next_line(s, 0) == p2);
    let t1 = s.subrange(0, e1);
    assert(t1[0] == '#');
    assert(trim_start(t1) == t1);
    lemma_trim_end_first(t1);
    assert(ini_line(trim(t1)) == IniLine::Blank);
    // The section header.
    assert forall|i: int| p2 <= i < e2 implies #[trigger] s[i] != '\n' by {
        if p2 < i < r {
            assert(s[i] == n[i - p2 - 1]);
        }
    }
    lemma_find_char_run(s, p2, s.len() as int, '\n', e2 - p2);
    assert(next_line(s, p2) == p3);
    let t2 = s.subrange(p2, e2);
    assert(t2[0] == '[' && t2.last() == ']');
    lemma_trim_bare(t2);
    assert(t2.subrange(1, t2.len() - 1) =~= n);
    assert(ini_line(trim(t2)) == IniLine::Section(n));
    let doc1 = obj_insert(Seq::empty(), n, Model::Object(Seq::empty()));
    assert(doc1 =~= seq![(n, Model::Object(Seq::empty()))]);
    // The entry.
    assert forall|i: int| p3 <= i < e3 implies #[trigger] s[i] != '\n' by {
        if i < m {
            assert(s[i] == k[i - p3]);
        } else if i > m {
            assert(s[i] == v[i - m - 1]);
        }
    }
    lemma_find_char_run(s, p3, s.len() as int, '\n', e3 - p3);
    assert(next_line(s, p3) == s.len());
    let t3 = s.subrange(p3, e3);
    assert(t3 =~= k + seq!['='] + v);
    assert(t3[0] == k[0]);
    if v.len() > 0 {
        assert(t3.last() == v[v.len() - 1]);
    } else {
        assert(t3.last() == '=');
    }
    lemma_trim_bare(t3);
    assert forall|i: int| 0 <= i < k.len() implies #[trigger] t3[i] != '=' by {
        assert(t3[i] == k[i]);
    }
    lemma_find_char_run(t3, 0, t3.len() as int, '=', k.len() as int);
    assert(t3.take(k.len() as int) =~= k);
    assert(t3.skip(k.len() as int + 1) =~= v);
    lemma_trim_bare(k);
    lemma_trim_bare(v);
    assert(ini_line(trim(t3)) == IniLine::Entry(k, v));
    lemma_key_lt_irreflexive(n);
    let doc2 = obj_insert(doc1, n, Model::Object(obj_insert(Seq::empty(), k, Model::Str(v))));
    assert(obj_insert(Seq::empty(), k, Model::Str(v)) =~= seq![(k, Model::Str(v))]);
    assert(lower_bound(doc1, n) == 0);
    assert(doc2 =~= seq![(n, Model::Object(seq![(k, Model::Str(v))]))]);
    assert(ini_from(s, s.len() as int, doc2, Some(n)) == Ok::<Seq<(Seq<char>, Model)>, Seq<char>>(doc2));
    assert(ini_from(s, p3, doc1, Some(n)) == Ok::<Seq<(Seq<char>, Model)>, Seq<char>>(doc2));
    assert(ini_from(s, p2, Seq::empty(), None) == Ok::<Seq<(Seq<char>, Model)>, Seq<char>>(doc2));
    assert(ini_from(s, 0, Seq::empty(), None) == Ok::<Seq<(Seq<char>, Model)>, Seq<char>>(doc2));
}

/// A dotenv name, `.env` or one beginning with `.env.` (letters compared without case), is
/// dotenv whatever its extension reads as.
pub proof fn law_dotenv_names(name: Seq<char>, ext: Option<Seq<char>>)
    requires
        lower_seq(name) == seq!['.', 'e', 'n', 'v'] || occurs_at(lower_seq(name), seq!['.', 'e', 'n', 'v', '.'], 0),
    ensures
        detect_spec(Some(name), ext) == Some(Format::Dotenv),
{
}

/// A file's extension decides its format, letters compared without case, when its name is
/// not a dotenv name (`.env` or `.env.*`): `env` is dotenv, `json` JSON, `toml` TOML,
/// `yaml` and `yml` YAML, `ini` INI; any other extension, or none, is no format.
pub proof fn law_extension_decides_format(name: Seq<char>, ext: Option<Seq<char>>)
    requires
        lower_seq(name) != seq!['.', 'e', 'n', 'v'],
        !occurs_at(lower_seq(name), seq!['.', 'e', 'n', 'v', '.'], 0),
    ensures
        ext is None ==> detect_spec(Some(name), ext) is None,
        ext matches Some(x) ==> detect_spec(Some(name), ext) == (if lower_seq(x) == seq!['e', 'n', 'v'] {
            Some(Format::Dotenv)
        } else if lower_seq(x) == seq!['j', 's', 'o', 'n'] {
            Some(Format::Json)
        } else if lower_seq(x) == seq!['t', 'o', 'm', 'l'] {
            Some(Format::Toml)
        } else if lower_seq(x) == seq!['y', 'a', 'm', 'l'] || lower_seq(x) == seq!['y', 'm', 'l'] {
            Some(Format::Yaml)
        } else if lower_seq(x) == seq!['i', 'n', 'i'] {
            Some(Format::Ini)
        } else {
            None
        }),
        detect_spec(None, ext) is None,
{
}

/// An undocumented top-level boolean is listed in annotated TOML as `key = true` or
/// `key = false`, the bare word; an undocumented integer as its decimal digits.
pub proof fn law_toml_listing_of_scalars(k: Seq<char>, b: bool, i: i64)
    ensures
        annotated_toml(Model::Object(seq![(k, Model::Bool(b))]), Seq::empty()) == k + " = "@ + (if b {
            "true"@
        } else {
            "false"@
        }) + "\n"@,
        annotated_toml(Model::Object(seq![(k, Model::Integer(i))]), Seq::empty()) == k + " = "@ + int_text(i as int)
            + "\n"@,
{
    let e1 = seq![(k, Model::Bool(b))];
    let e2 = seq![(k, Model::Integer(i))];
    let nf = Seq::<FieldDef>::empty();
    let none = Seq::<(Seq<char>, Model)>::empty();
    assert(e1.drop_last() =~= none);
    assert(e2.drop_last() =~= none);
    assert(field_for(nf, k) is None);
    assert(crate::schema::toml_entries(none, nf) == Seq::<char>::empty());
    let x1 = crate::schema::toml_entry(k, Model::Bool(b), nf);
    let x2 = crate::schema::toml_entry(k, Model::Integer(i), nf);
    assert(toml_value(Model::Bool(b)) == bool_text(b));
    assert(x1 =~= k + " = "@ + bool_text(b) + "\n"@);
    assert(x2 =~= k + " = "@ + int_text(i as int) + "\n"@);
    assert(crate::schema::toml_entries(e1, nf) == crate::schema::toml_entries(e1.drop_last(), nf) + x1);
    assert(crate::schema::toml_entries(e2, nf) == crate::schema::toml_entries(e2.drop_last(), nf) + x2);
    assert(Seq::<char>::empty() + x1 =~= x1);
    assert(Seq::<char>::empty() + x2 =~= x2);
}


/// The listing of an object's entries is the listing of a first part of them followed by the
/// listing of the rest: each entry is listed on its own, in order.
pub proof fn law_toml_listing_concat(e1: Seq<(Seq<char>, Model)>, e2: Seq<(Seq<char>, Model)>, fields: Seq<FieldDef>)
    ensures
        annotated_toml(Model::Object(e1 + e2), fields) == annotated_toml(Model::Object(e1), fields) + annotated_toml(
            Model::Object(e2),
            fields,
        ),
    decreases e2.len(),
{
    if e2.len() == 0 {
        assert(e1 + e2 =~= e1);
        assert(toml_entries(e2, fields) == Seq::<char>::empty());
        assert(toml_entries(e1, fields) + Seq::<char>::empty() =~= toml_entries(e1, fields));
    } else {
        law_toml_listing_concat(e1, e2.drop_last(), fields);
        assert((e1 + e2).drop_last() =~= e1 + e2.drop_last());
        assert((e1 + e2).last() == e2.last());
        let x = toml_entry(e2.last().0, e2.last().1, fields);
        assert(toml_entries(e1 + e2, fields) == toml_entries(e1 + e2.drop_last(), fields) + x);
        assert(toml_entries(e2, fields) == toml_entries(e2.drop_last(), fields) + x);
        assert(toml_entries(e1, fields) + toml_entries(e2.drop_last(), fields) + x =~= toml_entries(e1, fields) + (
        toml_entries(e2.drop_last(), fields) + x));
    }
}

/// The YAML listing of an object's entries is the listing of a first part of them followed by
/// the listing of the rest.
pub proof fn law_yaml_listing_concat(e1: Seq<(Seq<char>, Model)>, e2: Seq<(Seq<char>, Model)>, fields: Seq<FieldDef>)
    ensures
        annotated_yaml(Model::Object(e1 + e2), fields) == annotated_yaml(Model::Object(e1), fields) + annotated_yaml(
            Model::Object(e2),
            fields,
        ),
    decreases e2.len(),
{
    let z = Seq::<char>::empty();
    if e2.len() == 0 {
        assert(e1 + e2 =~= e1);
        assert(yaml_entries(e2, fields, z, z) == z);
        assert(yaml_entries(e1, fields, z, z) + z =~= yaml_entries(e1, fields, z, z));
    } else {
        law_yaml_listing_concat(e1, e2.drop_last(), fields);
        assert((e1 + e2).drop_last() =~= e1 + e2.drop_last());
        assert((e1 + e2).last() == e2.last());
        let x = yaml_entry(e2.last().0, e2.last().1, fields, z, z);
        assert(yaml_entries(e1 + e2, fields, z, z) == yaml_entries(e1 + e2.drop_last(), fields, z, z) + x);
        assert(yaml_entries(e2, fields, z, z) == yaml_entries(e2.drop_last(), fields, z, z) + x);
        assert(yaml_entries(e1, fields, z, z) + yaml_entries(e2.drop_last(), fields, z, z) + x =~= yaml_entries(
            e1,
            fields,
            z,
            z,
        ) + (yaml_entries(e2.drop_last(), fields, z, z) + x));
    }
}

/// Whether every character of `x` is printable ASCII other than a backslash or a quote, so
/// that `escape_default` leaves it as it is.
pub open spec fn plain_text(x: Seq<char>) -> bool {
    forall|i: int| 0 <= i < x.len() ==> ' ' <= #[trigger] x[i] <= '~' && x[i] != '\\' && x[i] != '\'' && x[i] != '"'
}

proof fn lemma_escape_plain(x: Seq<char>)
    requires
        plain_text(x),
    ensures
        escape_default_text(x) == x,
    decreases x.len(),
{
    if x.len() > 0 {
        assert(plain_text(x.drop_last())) by {
            assert forall|i: int| 0 <= i < x.drop_last().len() implies ' ' <= #[trigger] x.drop_last()[i] <= '~'
                && x.drop_last()[i] != '\\' && x.drop_last()[i] != '\'' && x.drop_last()[i] != '"' by {
                assert(x.drop_last()[i] == x[i]);
            }
        }
        lemma_escape_plain(x.drop_last());
        let c = x.last();
        assert(' ' <= c <= '~' && c != '\\' && c != '\'' && c != '"');
        assert(escape_default_char(c) == seq![c]);
        assert(x.drop_last().push(c) =~= x);
    }
}

/// A documented top-level field is listed in annotated TOML after its description and, when
/// it has a default, a line with its type and default, and is followed by a blank line; a
/// string of plain printable text is listed in double quotes as it is.
pub proof fn law_toml_listing_documented(k: Seq<char>, b: bool, x: Seq<char>, f: FieldDef)
    requires
        f.path@ == k,
    ensures
        annotated_toml(Model::Object(seq![(k, Model::Bool(b))]), seq![f]) == "# "@ + f.description@ + "\n"@ + (
        match f.default {
            Some(d) => "# Type: "@ + f.type_label@ + " | Default: "@ + d@ + "\n"@,
            None => Seq::empty(),
        }) + k + " = "@ + (if b {
            "true"@
        } else {
            "false"@
        }) + "\n\n"@,
        plain_text(x) ==> annotated_toml(Model::Object(seq![(k, Model::Str(x))]), Seq::empty()) == k + " = \""@ + x
            + "\"\n"@,
{
    let e1 = seq![(k, Model::Bool(b))];
    let e2 = seq![(k, Model::Str(x))];
    let fs = seq![f];
    let nf = Seq::<FieldDef>::empty();
    let none = Seq::<(Seq<char>, Model)>::empty();
    assert(e1.drop_last() =~= none);
    assert(e2.drop_last() =~= none);
    assert(field_for(fs, k) == Some(f));
    assert(field_for(nf, k) is None);
    assert(toml_entries(none, fs) == Seq::<char>::empty());
    assert(toml_entries(none, nf) == Seq::<char>::empty());
    assert(toml_value(Model::Bool(b)) == bool_text(b));
    let x1 = toml_entry(k, Model::Bool(b), fs);
    assert(toml_entries(e1, fs) == toml_entries(none, fs) + x1);
    assert(Seq::<char>::empty() + x1 =~= x1);
    assert(x1 =~= "# "@ + f.description@ + "\n"@ + (match f.default {
        Some(d) => "# Type: "@ + f.type_label@ + " | Default: "@ + d@ + "\n"@,
        None => Seq::empty(),
    }) + k + " = "@ + (if b {
        "true"@
    } else {
        "false"@
    }) + "\n\n"@) by {
        reveal_strlit("\n");
        reveal_strlit("\n\n");
    }
    if plain_text(x) {
        lemma_escape_plain(x);
        let x2 = toml_entry(k, Model::Str(x), nf);
        assert(toml_entries(e2, nf) == toml_entries(none, nf) + x2);
        assert(Seq::<char>::empty() + x2 =~= x2);
        assert(x2 =~= k + " = \""@ + x + "\"\n"@) by {
            reveal_strlit(" = \"");
            reveal_strlit("\"\n");
            reveal_strlit(" = ");
            reveal_strlit("\"");
            reveal_strlit("\n");
        }
    }
}

/// In annotated YAML an undocumented top-level boolean is listed as `key: true` or
/// `key: false`; a nested object follows its key's line (`key: `), its entries indented by
/// two spaces;
/// a documented field is preceded by its description and, when it has one, its default.
pub proof fn law_yaml_listing_entries(k: Seq<char>, ck: Seq<char>, b: bool, f: FieldDef)
    requires
        f.path@ == k,
    ensures
        annotated_yaml(Model::Object(seq![(k, Model::Bool(b))]), Seq::empty()) == k + ": "@ + bool_text(b) + "\n"@,
        annotated_yaml(Model::Object(seq![(k, Model::Object(seq![(ck, Model::Bool(b))]))]), Seq::empty()) == k
            + ": "@ + "\n"@ + "  "@ + ck + ": "@ + bool_text(b) + "\n"@,
        annotated_yaml(Model::Object(seq![(k, Model::Bool(b))]), seq![f]) == "# "@ + f.description@ + "\n"@ + (
        match f.default {
            Some(d) => "# Default: "@ + d@ + "\n"@,
            None => Seq::empty(),
        }) + k + ": "@ + bool_text(b) + "\n"@,
        bool_text(b) == (if b {
            "true"@
        } else {
            "false"@
        }),
{
    let z = Seq::<char>::empty();
    let nf = Seq::<FieldDef>::empty();
    let fs = seq![f];
    let none = Seq::<(Seq<char>, Model)>::empty();
    let e1 = seq![(k, Model::Bool(b))];
    let inner = seq![(ck, Model::Bool(b))];
    let e2 = seq![(k, Model::Object(inner))];
    assert(e1.drop_last() =~= none);
    assert(e2.drop_last() =~= none);
    assert(inner.drop_last() =~= none);
    assert(field_for(nf, k) is None);
    assert(field_for(fs, k) == Some(f));
    assert(crate::schema::child_path(z, k) == k);
    assert(field_for(nf, crate::schema::child_path(k, ck)) is None);
    // An undocumented boolean.
    let x1 = yaml_entry(k, Model::Bool(b), nf, z, z);
    assert(yaml_entries(none, nf, z, z) == z);
    assert(yaml_entries(e1, nf, z, z) == yaml_entries(none, nf, z, z) + x1);
    assert(x1 =~= k + ": "@ + bool_text(b) + "\n"@);
    assert(z + x1 =~= x1);
    // A nested object.
    let ind = z + "  "@;
    let y = yaml_entry(ck, Model::Bool(b), nf, k, ind);
    assert(yaml_entries(none, nf, k, ind) == z);
    assert(yaml_entries(inner, nf, k, ind) == yaml_entries(none, nf, k, ind) + y);
    assert(y =~= ind + ck + ": "@ + bool_text(b) + "\n"@);
    let x2 = yaml_entry(k, Model::Object(inner), nf, z, z);
    assert(x2 =~= k + ": "@ + "\n"@ + yaml_entries(inner, nf, k, ind));
    assert(yaml_entries(e2, nf, z, z) == yaml_entries(none, nf, z, z) + x2);
    assert(z + x2 =~= x2);
    assert(z + y =~= y);
    assert(ind =~= "  "@);
    assert(k + ": "@ + "\n"@ + (z + y) =~= k + ": "@ + "\n"@ + "  "@ + ck + ": "@ + bool_text(b) + "\n"@);
    // A documented boolean.
    let x3 = yaml_entry(k, Model::Bool(b), fs, z, z);
    assert(yaml_entries(none, fs, z, z) == z);
    assert(yaml_entries(e1, fs, z, z) == yaml_entries(none, fs, z, z) + x3);
    assert(z + x3 =~= x3);
    assert(x3 =~= "# "@ + f.description@ + "\n"@ + (match f.default {
        Some(d) => "# Default: "@ + d@ + "\n"@,
        None => Seq::empty(),
    }) + k + ": "@ + bool_text(b) + "\n"@);
}


/// A key without dots or backslashes is written in a path as it is.
proof fn lemma_escape_bare(x: Seq<char>)
    requires
        forall|i: int| 0 <= i < x.len() ==> #[trigger] x[i] != '.' && x[i] != '\\',
    ensures
        escape(x) == x,
    decreases x.len(),
{
    if x.len() > 0 {
        assert forall|i: int| 0 <= i < x.drop_first().len() implies #[trigger] x.drop_first()[i] != '.'
            && x.drop_first()[i] != '\\' by {
            assert(x.drop_first()[i] == x[i + 1]);
        }
        lemma_escape_bare(x.drop_first());
        assert(seq![x[0]] + x.drop_first() =~= x);
    }
}

/// The first element of `a` whose `f` holds `slug` is the one that `slug_index` finds.
proof fn lemma_slug_index_first(a: Seq<Model>, f: Seq<char>, slug: Seq<char>, i: int)
    requires
        0 <= i < a.len(),
        has_slug(a[i], f, slug),
        forall|j: int| 0 <= j < i ==> !has_slug(#[trigger] a[j], f, slug),
    ensures
        slug_index(a, f, slug) == Some(i),
    decreases i,
{
    if i > 0 {
        assert(!has_slug(a[0], f, slug));
        assert forall|j: int| 0 <= j < i - 1 implies !has_slug(#[trigger] a.drop_first()[j], f, slug) by {
            assert(a.drop_first()[j] == a[j + 1]);
        }
        lemma_slug_index_first(a.drop_first(), f, slug, i - 1);
    }
}

/// How a segment after an array's key addresses its element: a decimal index first, in
/// bounds or refused as out of bounds, whatever slugs the elements hold; otherwise, in an
/// array registered as a keyed list, the first element whose slug field holds the segment;
/// in an unregistered array a non-numeric segment is refused.
pub proof fn law_array_addressing(
    k: Seq<char>,
    a: Seq<Model>,
    n: usize,
    slug: Seq<char>,
    kls: Seq<KeyedList>,
    i: int,
)
    requires
        k.len() > 0,
        forall|x: int| 0 <= x < k.len() ==> #[trigger] k[x] != '.' && k[x] != '\\',
        slug.len() > 0,
        forall|x: int| 0 <= x < slug.len() ==> #[trigger] slug[x] != '.' && slug[x] != '\\',
    ensures
        get_path_spec(Model::Object(seq![(k, Model::Array(a))]), k + seq!['.'] + nat_text(n as nat), kls) == if (n
            as int) < a.len() {
            Ok::<Model, ErrorModel>(a[n as int])
        } else {
            Err(ErrorModel::IndexOutOfBounds { path: k, index: n as nat, len: a.len() })
        },
        parse_usize_spec(slug) is None && registration(kls, k) is None ==> get_path_spec(
            Model::Object(seq![(k, Model::Array(a))]),
            k + seq!['.'] + slug,
            kls,
        ) == Err::<Model, ErrorModel>(ErrorModel::UnregisteredArray { path: k }),
        registration(kls, k) matches Some(f) ==> (parse_usize_spec(slug) is None && 0 <= i < a.len() && has_slug(
            a[i],
            f,
            slug,
        ) && (forall|j: int| 0 <= j < i ==> !has_slug(#[trigger] a[j], f, slug)) ==> get_path_spec(
            Model::Object(seq![(k, Model::Array(a))]),
            k + seq!['.'] + slug,
            kls,
        ) == Ok::<Model, ErrorModel>(a[i])),
{
    let doc = Model::Object(seq![(k, Model::Array(a))]);
    let d = nat_text(n as nat);
    lemma_nat_text(n as nat);
    assert forall|x: int| 0 <= x < d.len() implies #[trigger] d[x] != '.' && d[x] != '\\' by {
        assert(is_digit(d[x]));
    }
    lemma_escape_bare(k);
    lemma_escape_bare(d);
    lemma_escape_bare(slug);
    assert(unsigned_part(d, false) == (false, d)) by {
        assert(is_digit(d[0]));
    }
    assert(parse_usize_spec(d) == Some(n));
    let e = seq![(k, Model::Array(a))];
    assert(obj_get(e, k) == Some(Model::Array(a)));
    // The index path.
    let s1 = seq![k, d];
    assert(s1.drop_first() =~= seq![d]);
    assert(join_segments(seq![d]) == escape(d));
    assert(join_segments(s1) == k + seq!['.'] + d);
    law_parse_after_join(s1);
    assert(s1.take(1) =~= seq![k]);
    assert(join_segments(seq![k]) == escape(k));
    assert(prefix_path(s1, 1) == k);
    let p1 = k + seq!['.'] + d;
    if (n as int) < a.len() {
        assert(get_walk(a[n as int], s1, 2, kls, p1) == Ok::<Model, ErrorModel>(a[n as int]));
    }
    assert(get_walk(Model::Array(a), s1, 1, kls, p1) == get_walk(doc, s1, 0, kls, p1));
    // The slug path.
    let s2 = seq![k, slug];
    assert(s2.drop_first() =~= seq![slug]);
    assert(join_segments(seq![slug]) == escape(slug));
    assert(join_segments(s2) == k + seq!['.'] + slug);
    law_parse_after_join(s2);
    assert(s2.take(1) =~= seq![k]);
    assert(prefix_path(s2, 1) == k);
    let p2 = k + seq!['.'] + slug;
    assert(get_walk(Model::Array(a), s2, 1, kls, p2) == get_walk(doc, s2, 0, kls, p2));
    if parse_usize_spec(slug) is None {
        if let Some(f) = registration(kls, k) {
            if 0 <= i < a.len() && has_slug(a[i], f, slug) && (forall|j: int| 0 <= j < i ==> !has_slug(#[trigger] a[j], f, slug)) {
                lemma_slug_index_first(a, f, slug, i);
                assert(get_walk(a[i], s2, 2, kls, p2) == Ok::<Model, ErrorModel>(a[i]));
            }
        }
    }
}


/// A field's section is the first segment of its path: all of a path without a dot, and the
/// text before the first dot otherwise.
pub proof fn law_section_of(sec: Seq<char>, rest: Seq<char>)
    requires
        forall|i: int| 0 <= i < sec.len() ==> #[trigger] sec[i] != '.',
    ensures
        section_of(sec) == sec,
        section_of(sec + seq!['.'] + rest) == sec,
{
    let dot = seq!['.'];
    assert forall|i: int| !occurs_at(sec, dot, i) by {
        if occurs_at(sec, dot, i) {
            assert(sec.subrange(i, i + 1)[0] == sec[i]);
        }
    }
    let p = sec + dot + rest;
    let n = sec.len() as int;
    assert(p.subrange(n, n + 1) =~= dot);
    assert(occurs_at(p, dot, n));
    assert forall|j: int| 0 <= j < n implies !occurs_at(p, dot, j) by {
        if occurs_at(p, dot, j) {
            assert(p.subrange(j, j + 1)[0] == p[j]);
            assert(p[j] == sec[j]);
        }
    }
    let w = choose|i: int| occurs_at(p, dot, i) && forall|j: int| 0 <= j < i ==> !occurs_at(p, dot, j);
    assert(occurs_at(p, dot, w) && forall|j: int| 0 <= j < w ==> !occurs_at(p, dot, j));
    if w < n {
        assert(!occurs_at(p, dot, w));
    }
    if w > n {
        assert(!occurs_at(p, dot, n));
    }
    assert(p.take(n) =~= sec);
}

/// The markdown reference of a single field: the title line, the heading of the field's
/// section, the table head, and the field's row (its path in backquotes, with a lock when it
/// is secret; its type; its default, or a dash; its description, marked when required).
#[verifier::rlimit(60)]
pub proof fn law_markdown_single_field(title: Seq<char>, f: FieldDef)
    ensures
        doc_markdown(title, seq![f]) == "# "@ + title + " Configuration Reference\n\n"@ + "## "@ + section_of(f.path@)
            + "\n\n"@ + "| Key | Type | Default | Description |\n"@ + "|-----|------|---------|-------------|\n"@
            + "| "@ + (if f.secret {
            "`"@ + f.path@ + "` 🔒"@
        } else {
            "`"@ + f.path@ + "`"@
        }) + " | `"@ + f.type_label@ + "` | `"@ + (match f.default {
            Some(d) => d@,
            None => "—"@,
        }) + "` | "@ + f.description@ + (if f.required {
            " **Required**"@
        } else {
            Seq::<char>::empty()
        }) + " |\n"@ + "\n"@,
{
    let fs = seq![f];
    let sec = section_of(f.path@);
    let none = Seq::<FieldDef>::empty();
    assert(fs.drop_last() =~= none);
    assert(sections(none) == Seq::<Seq<char>>::empty());
    assert(sections(fs) == insert_sorted(Seq::<Seq<char>>::empty(), sec));
    assert(first_not_below(Seq::<Seq<char>>::empty(), sec) == 0);
    assert(insert_sorted(Seq::<Seq<char>>::empty(), sec) =~= seq![sec]);
    let secs = seq![sec];
    assert(secs.drop_last() =~= Seq::<Seq<char>>::empty());
    assert(crate::schema::sections_text(fs, Seq::<Seq<char>>::empty()) == Seq::<char>::empty());
    assert(crate::schema::sections_text(fs, secs) == Seq::<char>::empty() + crate::schema::section_text(fs, sec));
    assert(crate::schema::section_rows(none, sec) == Seq::<char>::empty());
    assert(crate::schema::section_rows(fs, sec) == Seq::<char>::empty() + crate::schema::row_text(f));
    assert(Seq::<char>::empty() + crate::schema::row_text(f) =~= crate::schema::row_text(f));
    assert(Seq::<char>::empty() + crate::schema::section_text(fs, sec) =~= crate::schema::section_text(fs, sec));
    let a = "# "@ + title + " Configuration Reference\n\n"@;
    let b = "## "@ + sec + "\n\n"@ + "| Key | Type | Default | Description |\n"@ + "|-----|------|---------|-------------|\n"@;
    let r = crate::schema::row_text(f);
    let kc = crate::schema::key_cell(f);
    let dc = crate::schema::default_cell(f);
    let cc = crate::schema::description_cell(f);
    assert(doc_markdown(title, fs) == a + (b + r + "\n"@));
    assert(a + (b + r + "\n"@) =~= a + b + r + "\n"@);
    assert(a + b =~= "# "@ + title + " Configuration Reference\n\n"@ + "## "@ + sec + "\n\n"@
        + "| Key | Type | Default | Description |\n"@ + "|-----|------|---------|-------------|\n"@);
    let ab = a + b;
    assert(r == "| "@ + kc + " | `"@ + f.type_label@ + "` | `"@ + dc + "` | "@ + cc + " |\n"@);
    assert(ab + r =~= ab + "| "@ + kc + " | `"@ + f.type_label@ + "` | `"@ + dc + "` | "@ + cc + " |\n"@);
    assert(cc == f.description@ + (if f.required {
        " **Required**"@
    } else {
        Seq::<char>::empty()
    }));
    assert(ab + "| "@ + kc + " | `"@ + f.type_label@ + "` | `"@ + dc + "` | "@ + cc =~= ab + "| "@ + kc + " | `"@
        + f.type_label@ + "` | `"@ + dc + "` | "@ + f.description@ + (if f.required {
        " **Required**"@
    } else {
        Seq::<char>::empty()
    }));
}


/// A text without line feeds counts none, and one more after a line feed is added.
proof fn lemma_newlines_line(x: Seq<char>)
    requires
        forall|i: int| 0 <= i < x.len() ==> #[trigger] x[i] != '\n',
    ensures
        newlines(x) == 0,
        newlines(x.push('\n')) == 1,
    decreases x.len(),
{
    if x.len() > 0 {
        assert forall|i: int| 0 <= i < x.drop_last().len() implies #[trigger] x.drop_last()[i] != '\n' by {
            assert(x.drop_last()[i] == x[i]);
        }
        lemma_newlines_line(x.drop_last());
        assert(x.last() != '\n');
    }
    assert(x.push('\n').drop_last() =~= x);
}

/// The detail of an error on line 1 or 2.
proof fn lemma_line_message_small(reason: Seq<char>)
    ensures
        line_message(1, reason) == "line 1: "@ + reason,
        line_message(2, reason) == "line 2: "@ + reason,
{
    reveal_strlit("line ");
    reveal_strlit(": ");
    reveal_strlit("line 1: ");
    reveal_strlit("line 2: ");
    assert(nat_text(1) == seq![digit_char(1)]);
    assert(digit_char(1) == '1');
    assert(nat_text(2) == seq![digit_char(2)]);
    assert(digit_char(2) == '2');
    assert("line "@ + nat_text(1) + ": "@ =~= "line 1: "@);
    assert("line "@ + nat_text(2) + ": "@ =~= "line 2: "@);
    assert("line "@ + nat_text(1) + ": "@ + reason =~= "line 1: "@ + reason);
    assert("line "@ + nat_text(2) + ": "@ + reason =~= "line 2: "@ + reason);
}

/// INI refuses an entry before any section header, and a section header that repeats one
/// already read; the error names the line and the reason, never the text.
#[verifier::rlimit(40)]
pub proof fn law_ini_refusals(n: Seq<char>, k: Seq<char>, v: Seq<char>)
    requires
        n.len() > 0,
        forall|i: int| 0 <= i < n.len() ==> #[trigger] n[i] != '\n',
        k.len() > 0,
        k[0] != ';' && k[0] != '#' && k[0] != '[',
        forall|i: int| 0 <= i < k.len() ==> !is_ws(#[trigger] k[i]) && k[i] != '=',
        forall|i: int| 0 <= i < v.len() ==> !is_ws(#[trigger] v[i]),
    ensures
        ini_load_spec(k + seq!['='] + v + seq!['\n']) == Err::<Model, ErrorModel>(
            ErrorModel::ParseError { format: "INI"@, detail: "line 1: "@ + "entry outside a section"@ },
        ),
        ini_load_spec(seq!['['] + n + seq![']', '\n', '['] + n + seq![']', '\n']) == Err::<Model, ErrorModel>(
            ErrorModel::ParseError { format: "INI"@, detail: "line 2: "@ + "duplicate section"@ },
        ),
{
    lemma_line_message_small("entry outside a section"@);
    lemma_line_message_small("duplicate section"@);
    // An entry first.
    let s = k + seq!['='] + v + seq!['\n'];
    let m = k.len() as int;
    let e = m + 1 + v.len();
    assert(s.len() == e + 1);
    assert forall|i: int| 0 <= i < k.len() implies s[i] == k[i] by {}
    assert forall|i: int| 0 <= i < v.len() implies s[m + 1 + i] == v[i] by {}
    assert(s[m] == '=' && s[e] == '\n');
    assert forall|i: int| 0 <= i < e implies #[trigger] s[i] != '\n' by {
        if i < m {
            assert(s[i] == k[i]);
        } else if i > m {
            assert(s[i] == v[i - m - 1]);
        }
    }
    lemma_find_char_run(s, 0, s.len() as int, '\n', e);
    let t = s.subrange(0, e);
    assert(t =~= k + seq!['='] + v);
    assert(t[0] == k[0]);
    if v.len() > 0 {
        assert(t.last() == v[v.len() - 1]);
    } else {
        assert(t.last() == '=');
    }
    lemma_trim_bare(t);
    assert forall|i: int| 0 <= i < k.len() implies #[trigger] t[i] != '=' by {
        assert(t[i] == k[i]);
    }
    lemma_find_char_run(t, 0, t.len() as int, '=', k.len() as int);
    assert(t.take(k.len() as int) =~= k);
    assert(t.skip(k.len() as int + 1) =~= v);
    lemma_trim_bare(k);
    lemma_trim_bare(v);
    assert(ini_line(trim(t)) == IniLine::Entry(k, v));
    assert(s.take(0) =~= Seq::<char>::empty());
    assert(newlines(Seq::<char>::empty()) == 0);
    assert(line_of(s, 0) == 1);
    // A repeated section.
    let h = seq!['['] + n + seq![']'];
    let d = h + seq!['\n'] + h + seq!['\n'];
    let r = n.len() as int + 1;
    let p2 = r + 2;
    let r2 = p2 + n.len() + 1;
    assert(d.len() == r2 + 2);
    assert(h.len() == r + 1);
    assert forall|i: int| 0 <= i < n.len() implies d[1 + i] == n[i] && d[p2 + 1 + i] == n[i] by {}
    assert(d[0] == '[' && d[r] == ']' && d[r + 1] == '\n' && d[p2] == '[' && d[r2] == ']' && d[r2 + 1] == '\n');
    assert forall|i: int| 0 <= i < h.len() implies #[trigger] h[i] != '\n' by {
        if 0 < i < r {
            assert(h[i] == n[i - 1]);
        }
    }
    assert forall|i: int| 0 <= i < r + 1 implies #[trigger] d[i] != '\n' by {
        assert(d[i] == h[i]);
    }
    assert forall|i: int| p2 <= i < r2 + 1 implies #[trigger] d[i] != '\n' by {
        assert(d[i] == h[i - p2]);
    }
    lemma_find_char_run(d, 0, d.len() as int, '\n', r + 1);
    lemma_find_char_run(d, p2, d.len() as int, '\n', r2 + 1 - p2);
    assert(d.subrange(0, r + 1) =~= h);
    assert(d.subrange(p2, r2 + 1) =~= h);
    assert(h.last() == ']');
    lemma_trim_bare(h);
    assert(h.subrange(1, h.len() - 1) =~= n);
    assert(ini_line(trim(h)) == IniLine::Section(n));
    let doc1 = obj_insert(Seq::empty(), n, Model::Object(Seq::empty()));
    assert(doc1 =~= seq![(n, Model::Object(Seq::empty()))]);
    assert(obj_get(doc1, n) is Some);
    assert(d.take(p2) =~= h.push('\n'));
    lemma_newlines_line(h);
    assert(line_of(d, p2) == 2);
    assert(d.take(0) =~= Seq::<char>::empty());
    assert(newlines(Seq::<char>::empty()) == 0);
    assert(line_of(d, 0) == 1);
    assert(next_line(d, 0) == p2);
    assert(d =~= seq!['['] + n + seq![']', '\n', '['] + n + seq![']', '\n']);
    assert(ini_from(d, p2, doc1, Some(n)) == Err::<Seq<(Seq<char>, Model)>, Seq<char>>(
        line_message(2, "duplicate section"@),
    ));
    assert(ini_from(d, 0, Seq::empty(), None) == Err::<Seq<(Seq<char>, Model)>, Seq<char>>(
        line_message(2, "duplicate section"@),
    ));
}


/// An array in annotated TOML is listed in square brackets, its elements separated by `, `:
/// an integer as its digits, a string of plain text in double quotes, and any other element
/// as nothing (its separator stays).
pub proof fn law_toml_listing_arrays(k: Seq<char>, a: i64, x: Seq<char>, t: bool)
    requires
        plain_text(x),
    ensures
        annotated_toml(
            Model::Object(seq![(k, Model::Array(seq![Model::Integer(a), Model::Str(x), Model::Bool(t)]))]),
            Seq::empty(),
        ) == k + " = "@ + "["@ + int_text(a as int) + ", "@ + "\""@ + x + "\""@ + ", "@ + "]"@ + "\n"@,
{
    let items = seq![Model::Integer(a), Model::Str(x), Model::Bool(t)];
    let e = seq![(k, Model::Array(items))];
    let nf = Seq::<FieldDef>::empty();
    let none = Seq::<(Seq<char>, Model)>::empty();
    lemma_escape_plain(x);
    assert(items.drop_last() =~= seq![Model::Integer(a), Model::Str(x)]);
    assert(items.drop_last().drop_last() =~= seq![Model::Integer(a)]);
    assert(toml_items(seq![Model::Integer(a)]) == int_text(a as int));
    assert(toml_item(Model::Str(x)) == "\""@ + x + "\""@);
    assert(toml_item(Model::Bool(t)) == Seq::<char>::empty());
    assert(toml_items(seq![Model::Integer(a), Model::Str(x)]) == int_text(a as int) + ", "@ + ("\""@ + x + "\""@));
    assert(toml_items(items) == toml_items(seq![Model::Integer(a), Model::Str(x)]) + ", "@ + Seq::<char>::empty());
    let body = int_text(a as int) + ", "@ + "\""@ + x + "\""@ + ", "@;
    assert(toml_items(items) =~= body);
    assert(e.drop_last() =~= none);
    assert(field_for(nf, k) is None);
    assert(toml_entries(none, nf) == Seq::<char>::empty());
    let x1 = toml_entry(k, Model::Array(items), nf);
    assert(toml_entries(e, nf) == toml_entries(none, nf) + x1);
    assert(Seq::<char>::empty() + x1 =~= x1);
    assert(x1 =~= k + " = "@ + ("["@ + body + "]"@) + "\n"@);
    assert(k + " = "@ + ("["@ + body + "]"@) + "\n"@ =~= k + " = "@ + "["@ + int_text(a as int) + ", "@ + "\""@ + x
        + "\""@ + ", "@ + "]"@ + "\n"@);
}


/// A dotenv document that assigns the same key twice is refused, the error naming the line
/// of the second assignment.
#[verifier::rlimit(80)]
pub proof fn law_dotenv_duplicate_key(k: Seq<char>, v: Seq<char>, w: Seq<char>)
    requires
        k.len() > 0,
        forall|i: int| 0 <= i < k.len() ==> is_key_char(#[trigger] k[i]),
        forall|i: int| 0 <= i < v.len() ==> !is_hws(#[trigger] v[i]) && v[i] != '\n',
        v.len() > 0 ==> v[0] != '"' && v[0] != '\'',
        forall|i: int| 0 <= i < w.len() ==> !is_hws(#[trigger] w[i]) && w[i] != '\n',
        w.len() > 0 ==> w[0] != '"' && w[0] != '\'',
    ensures
        dotenv_load_spec(k + seq!['='] + v + seq!['\n'] + k + seq!['='] + w + seq!['\n']) == Err::<Model, ErrorModel>(
            ErrorModel::ParseError { format: "dotenv"@, detail: "line 2: "@ + "duplicate key"@ },
        ),
{
    lemma_line_message_small("duplicate key"@);
    let l1 = k + seq!['='] + v;
    let s = l1 + seq!['\n'] + k + seq!['='] + w + seq!['\n'];
    let kl = k.len() as int;
    let start = kl + 1;
    let e = start + v.len();
    let p2 = e + 1;
    let m2 = p2 + kl;
    let start2 = m2 + 1;
    let e2 = start2 + w.len();
    assert(s.len() == e2 + 1);
    assert(l1.len() == e);
    assert forall|i: int| 0 <= i < kl implies s[i] == k[i] && s[p2 + i] == k[i] by {}
    assert forall|i: int| 0 <= i < v.len() implies s[start + i] == v[i] by {}
    assert forall|i: int| 0 <= i < w.len() implies s[start2 + i] == w[i] by {}
    assert(s[kl] == '=' && s[e] == '\n' && s[m2] == '=' && s[e2] == '\n');
    assert(s.subrange(0, kl) =~= k);
    assert(s.subrange(p2, m2) =~= k);
    // The first line.
    lemma_dotenv_key_line_at(s, 0, k, Seq::empty());
    assert(skip_hws(s, start) == start) by {
        if v.len() > 0 {
            assert(s[start] == v[0]);
        }
    }
    assert forall|i: int| start <= i < e implies #[trigger] s[i] != '\n' && !is_hws(s[i]) by {
        assert(s[i] == v[i - start]);
    }
    lemma_find_char_run(s, start, s.len() as int, '\n', v.len() as int);
    lemma_comment_start_skip(s, start, e, e);
    let c1 = rtrim_end(s, start, e);
    assert(dot_value(s, start) == Ok::<(Seq<char>, int), Seq<char>>((s.subrange(start, c1), e)));
    let acc = obj_insert(Seq::empty(), k, Model::Str(s.subrange(start, c1)));
    assert(acc =~= seq![(k, Model::Str(s.subrange(start, c1)))]);
    assert(obj_get(acc, k) is Some);
    assert(obj_get(Seq::<(Seq<char>, Model)>::empty(), k) is None);
    assert(skip_hws(s, e) == e);
    assert(dotenv_from(s, e, acc) == dotenv_from(s, p2, acc));
    // The second line.
    lemma_dotenv_key_line_at(s, p2, k, acc);
    assert(skip_hws(s, start2) == start2) by {
        if w.len() > 0 {
            assert(s[start2] == w[0]);
        }
    }
    assert(s[start2] != '"' && s[start2] != '\'') by {
        if w.len() > 0 {
            assert(s[start2] == w[0]);
        }
    }
    assert(dot_value(s, start2) is Ok);
    assert(s.take(p2) =~= l1.push('\n'));
    assert forall|i: int| 0 <= i < l1.len() implies #[trigger] l1[i] != '\n' by {
        assert(l1[i] == s[i]);
        if i >= start {
            assert(s[i] == v[i - start]);
        }
    }
    lemma_newlines_line(l1);
    assert(line_of(s, p2) == 2);
    assert(dotenv_from(s, p2, acc) == Err::<Seq<(Seq<char>, Model)>, Seq<char>>(line_message(2, "duplicate key"@)));
    assert(dotenv_from(s, 0, Seq::empty()) == Err::<Seq<(Seq<char>, Model)>, Seq<char>>(line_message(2, "duplicate key"@)));
    assert(s =~= k + seq!['='] + v + seq!['\n'] + k + seq!['='] + w + seq!['\n']);
}


/// An explicit format name decides the format whatever the file is called, letters compared
/// without case: `json`, `toml`, `yaml` or `yml`, `dotenv` or `env`, `ini`; without one the
/// file's name decides.
pub proof fn law_explicit_format_wins(f1: Seq<char>, f2: Seq<char>, name: Seq<char>)
    ensures
        detect_format_spec(f1, Some(name)) == detect_format_spec(f2, Some(name)),
        lower_seq(name) == seq!['j', 's', 'o', 'n'] ==> detect_format_spec(f1, Some(name)) == Ok::<Format, ErrorModel>(Format::Json),
        lower_seq(name) == seq!['t', 'o', 'm', 'l'] ==> detect_format_spec(f1, Some(name)) == Ok::<Format, ErrorModel>(Format::Toml),
        lower_seq(name) == seq!['y', 'a', 'm', 'l'] || lower_seq(name) == seq!['y', 'm', 'l'] ==> detect_format_spec(
            f1,
            Some(name),
        ) == Ok::<Format, ErrorModel>(Format::Yaml),
        lower_seq(name) == seq!['d', 'o', 't', 'e', 'n', 'v'] || lower_seq(name) == seq!['e', 'n', 'v'] ==> detect_format_spec(
            f1,
            Some(name),
        ) == Ok::<Format, ErrorModel>(Format::Dotenv),
        lower_seq(name) == seq!['i', 'n', 'i'] ==> detect_format_spec(f1, Some(name)) == Ok::<Format, ErrorModel>(Format::Ini),
        detect_format_spec(f1, None) matches Ok(f) ==> detect_spec(crate::format::file_name_of(f1), crate::format::extension_of(f1))
            == Some(f),
        detect_spec(crate::format::file_name_of(f1), crate::format::extension_of(f1)) matches Some(f) ==> detect_format_spec(
            f1,
            None,
        ) == Ok::<Format, ErrorModel>(f),
{
}

/// A `FIELD=VALUE` argument splits at its first `=`: a name without `=` and any value (which
/// may hold `=` itself) come back apart; an argument that starts with `=` has an empty name
/// and is refused.
pub proof fn law_field_pair(name: Seq<char>, value: Seq<char>)
    requires
        forall|i: int| 0 <= i < name.len() ==> #[trigger] name[i] != '=',
    ensures
        name.len() > 0 ==> field_pair_spec(name + seq!['='] + value) == Ok::<(Seq<char>, Seq<char>), ErrorModel>(
            (name, value),
        ),
        field_pair_spec(seq!['='] + value) is Err,
{
    let x = name + seq!['='] + value;
    let n = name.len() as int;
    assert(x[n] == '=');
    assert forall|j: int| 0 <= j < n implies x[j] != '=' by {
        assert(x[j] == name[j]);
    }
    let w = choose|i: int| 0 <= i < x.len() && x[i] == '=' && forall|j: int| 0 <= j < i ==> x[j] != '=';
    assert(0 <= w < x.len() && x[w] == '=' && forall|j: int| 0 <= j < w ==> x[j] != '=');
    if w < n {
        assert(x[w] == name[w]);
    }
    if w > n {
        assert(x[n] != '=');
    }
    assert(first_eq(x) == Some(n));
    assert(x.take(n) =~= name);
    assert(x.skip(n + 1) =~= value);
    let y = seq!['='] + value;
    assert(y[0] == '=');
    let w2 = choose|i: int| 0 <= i < y.len() && y[i] == '=' && forall|j: int| 0 <= j < i ==> y[j] != '=';
    assert(0 <= w2 < y.len() && y[w2] == '=' && forall|j: int| 0 <= j < w2 ==> y[j] != '=');
    if w2 > 0 {
        assert(y[0] != '=');
    }
    assert(first_eq(y) == Some(0int));
}

/// A change to a file goes ahead exactly when the path is not a symbolic link and the file
/// has at most one hard link.
pub proof fn law_preflight(path: Seq<char>, operation: Seq<char>, is_symlink: bool, links: u64)
    ensures
        preflight_spec(path, operation, is_symlink, links) is Ok <==> !is_symlink && links <= 1,
{
}

} // verus!
