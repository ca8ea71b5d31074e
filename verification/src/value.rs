//! The document tree: `Value`, its object maps, and their mathematical model.
use vstd::prelude::*;
use crate::text::{chars_of, copy_string, chars_equal, str_equal};

verus! {

/// A configuration value. Floating-point numbers are held as their decimal text.
#[derive(Debug, PartialEq)]
pub enum Value {
    Null,
    Bool(bool),
    Integer(i64),
    /// An integer above `i64::MAX` that fits `u64`.
    Unsigned(u64),
    Float(String),
    String(String),
    Array(Vec<Value>),
    /// Object map. Keys are kept sorted, not in insertion order.
    Object(ObjectMap),
}

/// A map from string keys to values whose entries are kept in ascending key order.
#[derive(Debug, PartialEq)]
pub struct ObjectMap {
    entries: Vec<(String, Value)>,
}

/// The mathematical model of a `Value`.
pub enum Model {
    Null,
    Bool(bool),
    Integer(i64),
    Unsigned(u64),
    Float(Seq<char>),
    Str(Seq<char>),
    Array(Seq<Model>),
    Object(Seq<(Seq<char>, Model)>),
}

impl Value {
    pub open spec fn model(self) -> Model
        decreases self, 0nat,
    {
        match self {
            Value::Null => Model::Null,
            Value::Bool(b) => Model::Bool(b),
            Value::Integer(i) => Model::Integer(i),
            Value::Unsigned(u) => Model::Unsigned(u),
            Value::Float(t) => Model::Float(t@),
            Value::String(s) => Model::Str(s@),
            Value::Array(a) => Model::Array(models(a@)),
            Value::Object(m) => Model::Object(m.view()),
        }
    }
}

impl ObjectMap {
    /// The entries of the map as (key, model) pairs, in stored order.
    pub closed spec fn view(&self) -> Seq<(Seq<char>, Model)>
        decreases self, 1nat,
    {
        entry_models(self.entries@)
    }
}

pub open spec fn models(s: Seq<Value>) -> Seq<Model>
    decreases s, 1nat,
{
    if s.len() == 0 {
        Seq::empty()
    } else {
        models(s.drop_last()).push(s.last().model())
    }
}

pub closed spec fn entry_models(s: Seq<(String, Value)>) -> Seq<(Seq<char>, Model)>
    decreases s, 2nat,
{
    if s.len() == 0 {
        Seq::empty()
    } else {
        entry_models(s.drop_last()).push((s.last().0@, s.last().1.model()))
    }
}


/// The model of an optional value.
pub open spec fn opt_model(o: Option<&Value>) -> Option<Model> {
    match o {
        Some(v) => Some(v.model()),
        None => None,
    }
}

/// Models of a sequence of values, element by element.
pub proof fn lemma_models(s: Seq<Value>)
    ensures
        models(s).len() == s.len(),
        forall|i: int| 0 <= i < s.len() ==> #[trigger] models(s)[i] == s[i].model(),
    decreases s.len(),
{
    if s.len() > 0 {
        lemma_models(s.drop_last());
    }
}

proof fn lemma_entry_models(s: Seq<(String, Value)>)
    ensures
        entry_models(s).len() == s.len(),
        forall|i: int|
            0 <= i < s.len() ==> #[trigger] entry_models(s)[i] == (s[i].0@, s[i].1.model()),
    decreases s.len(),
{
    if s.len() > 0 {
        lemma_entry_models(s.drop_last());
    }
}

/// Strict lexicographic order of character sequences by code point, the order of `String`.
pub open spec fn key_lt(a: Seq<char>, b: Seq<char>) -> bool
    decreases a.len(),
{
    if a.len() == 0 {
        b.len() > 0
    } else if b.len() == 0 {
        false
    } else if (a[0] as int) < (b[0] as int) {
        true
    } else if a[0] == b[0] {
        key_lt(a.drop_first(), b.drop_first())
    } else {
        false
    }
}

pub proof fn lemma_key_lt_irreflexive(a: Seq<char>)
    ensures
        !key_lt(a, a),
    decreases a.len(),
{
    if a.len() > 0 {
        lemma_key_lt_irreflexive(a.drop_first());
    }
}

pub proof fn lemma_key_lt_transitive(a: Seq<char>, b: Seq<char>, c: Seq<char>)
    requires
        key_lt(a, b),
        key_lt(b, c),
    ensures
        key_lt(a, c),
    decreases a.len(),
{
    if a.len() > 0 && b.len() > 0 && c.len() > 0 {
        if a[0] == b[0] && b[0] == c[0] {
            lemma_key_lt_transitive(a.drop_first(), b.drop_first(), c.drop_first());
        }
    }
}

pub proof fn lemma_key_lt_total(a: Seq<char>, b: Seq<char>)
    ensures
        a == b || key_lt(a, b) || key_lt(b, a),
    decreases a.len(),
{
    if a.len() > 0 && b.len() > 0 {
        if a[0] == b[0] {
            lemma_key_lt_total(a.drop_first(), b.drop_first());
            if a.drop_first() == b.drop_first() {
                assert(a =~= seq![a[0]] + a.drop_first());
                assert(b =~= seq![b[0]] + b.drop_first());
            }
        } else {
            assert((a[0] as int) != (b[0] as int));
        }
    } else if a.len() == 0 && b.len() == 0 {
        assert(a =~= b);
    }
}

pub proof fn lemma_key_lt_asymmetric(a: Seq<char>, b: Seq<char>)
    requires
        key_lt(a, b),
    ensures
        !key_lt(b, a),
        a != b,
{
    if key_lt(b, a) {
        lemma_key_lt_transitive(a, b, a);
        lemma_key_lt_irreflexive(a);
    }
    lemma_key_lt_irreflexive(a);
}

/// Keys strictly ascending, hence distinct.
pub open spec fn keys_sorted(s: Seq<(Seq<char>, Model)>) -> bool {
    forall|i: int, j: int| 0 <= i < j < s.len() ==> key_lt(#[trigger] s[i].0, #[trigger] s[j].0)
}

/// The index of the first entry with key `k`.
pub open spec fn obj_find(s: Seq<(Seq<char>, Model)>, k: Seq<char>) -> Option<int>
    decreases s.len(),
{
    if s.len() == 0 {
        None
    } else if s[0].0 == k {
        Some(0)
    } else {
        match obj_find(s.drop_first(), k) {
            Some(i) => Some(i + 1),
            None => None,
        }
    }
}

/// The value that the first entry with key `k` holds.
pub open spec fn obj_get(s: Seq<(Seq<char>, Model)>, k: Seq<char>) -> Option<Model> {
    match obj_find(s, k) {
        Some(i) => Some(s[i].1),
        None => None,
    }
}

/// The index of the first entry whose key is not below `k`.
pub open spec fn lower_bound(s: Seq<(Seq<char>, Model)>, k: Seq<char>) -> int
    decreases s.len(),
{
    if s.len() == 0 {
        0
    } else if !key_lt(s[0].0, k) {
        0
    } else {
        lower_bound(s.drop_first(), k) + 1
    }
}

/// The entries after `k` is mapped to `v`: an entry with key `k` at the lower bound is
/// updated, otherwise a new entry is placed there.
pub open spec fn obj_insert(s: Seq<(Seq<char>, Model)>, k: Seq<char>, v: Model) -> Seq<(Seq<char>, Model)> {
    let p = lower_bound(s, k);
    if p < s.len() && s[p].0 == k {
        s.update(p, (k, v))
    } else {
        s.insert(p, (k, v))
    }
}

/// The entries without any entry whose key is `k`.
pub open spec fn obj_remove(s: Seq<(Seq<char>, Model)>, k: Seq<char>) -> Seq<(Seq<char>, Model)>
    decreases s.len(),
{
    if s.len() == 0 {
        s
    } else if s.last().0 == k {
        obj_remove(s.drop_last(), k)
    } else {
        obj_remove(s.drop_last(), k).push(s.last())
    }
}

/// Removing a key that no entry holds changes nothing.
pub proof fn lemma_obj_remove_absent(s: Seq<(Seq<char>, Model)>, k: Seq<char>)
    requires
        forall|j: int| 0 <= j < s.len() ==> s[j].0 != k,
    ensures
        obj_remove(s, k) == s,
    decreases s.len(),
{
    if s.len() > 0 {
        lemma_obj_remove_absent(s.drop_last(), k);
        assert(s.drop_last().push(s.last()) =~= s);
    }
}

/// Removing a key that exactly one entry holds drops that entry.
pub proof fn lemma_obj_remove_single(s: Seq<(Seq<char>, Model)>, k: Seq<char>, i: int)
    requires
        0 <= i < s.len(),
        s[i].0 == k,
        forall|j: int| 0 <= j < s.len() && j != i ==> s[j].0 != k,
    ensures
        obj_remove(s, k) == s.remove(i),
    decreases s.len(),
{
    if i == s.len() - 1 {
        lemma_obj_remove_absent(s.drop_last(), k);
        assert(s.drop_last() =~= s.remove(i));
    } else {
        lemma_obj_remove_single(s.drop_last(), k, i);
        assert(s.drop_last().remove(i).push(s.last()) =~= s.remove(i));
    }
}

pub proof fn lemma_obj_find(s: Seq<(Seq<char>, Model)>, k: Seq<char>)
    ensures
        match obj_find(s, k) {
            Some(i) => 0 <= i < s.len() && s[i].0 == k && forall|j: int| 0 <= j < i ==> s[j].0 != k,
            None => forall|j: int| 0 <= j < s.len() ==> s[j].0 != k,
        },
    decreases s.len(),
{
    if s.len() > 0 && s[0].0 != k {
        lemma_obj_find(s.drop_first(), k);
        match obj_find(s.drop_first(), k) {
            Some(i) => {
                assert forall|j: int| 0 <= j < i + 1 implies s[j].0 != k by {
                    if j > 0 {
                        assert(s[j] == s.drop_first()[j - 1]);
                    }
                }
            },
            None => {
                assert forall|j: int| 0 <= j < s.len() implies s[j].0 != k by {
                    if j > 0 {
                        assert(s[j] == s.drop_first()[j - 1]);
                    }
                }
            },
        }
    }
}

/// `obj_find` is characterized by the first matching index.
pub proof fn lemma_obj_find_is(s: Seq<(Seq<char>, Model)>, k: Seq<char>, i: int)
    requires
        0 <= i < s.len(),
        s[i].0 == k,
        forall|j: int| 0 <= j < i ==> s[j].0 != k,
    ensures
        obj_find(s, k) == Some(i),
{
    lemma_obj_find(s, k);
}

pub proof fn lemma_lower_bound(s: Seq<(Seq<char>, Model)>, k: Seq<char>)
    ensures
        0 <= lower_bound(s, k) <= s.len(),
        forall|j: int| 0 <= j < lower_bound(s, k) ==> key_lt(#[trigger] s[j].0, k),
        lower_bound(s, k) < s.len() ==> !key_lt(s[lower_bound(s, k)].0, k),
    decreases s.len(),
{
    if s.len() > 0 && key_lt(s[0].0, k) {
        lemma_lower_bound(s.drop_first(), k);
        assert forall|j: int| 0 <= j < lower_bound(s, k) implies key_lt(#[trigger] s[j].0, k) by {
            if j > 0 {
                assert(s[j] == s.drop_first()[j - 1]);
            }
        }
    }
}

/// In sorted entries, a key that is present sits at its lower bound, so inserting it again
/// updates that entry in place.
pub proof fn lemma_obj_insert_found(s: Seq<(Seq<char>, Model)>, k: Seq<char>, v: Model, i: int)
    requires
        keys_sorted(s),
        obj_find(s, k) == Some(i),
    ensures
        lower_bound(s, k) == i,
        obj_insert(s, k, v) == s.update(i, (k, v)),
{
    lemma_obj_find(s, k);
    lemma_lower_bound(s, k);
    lemma_key_lt_irreflexive(k);
    let p = lower_bound(s, k);
    if p < i {
        assert(key_lt(s[p].0, s[i].0));
    }
    if p > i {
        assert(key_lt(s[i].0, k));
    }
}

/// Entries with the same keys in the same places find every key at the same index.
pub proof fn lemma_obj_find_same_keys(s: Seq<(Seq<char>, Model)>, t: Seq<(Seq<char>, Model)>, k: Seq<char>)
    requires
        s.len() == t.len(),
        forall|i: int| 0 <= i < s.len() ==> #[trigger] s[i].0 == t[i].0,
    ensures
        obj_find(s, k) == obj_find(t, k),
{
    lemma_obj_find(s, k);
    lemma_obj_find(t, k);
    match obj_find(s, k) {
        Some(i) => {
            assert forall|j: int| 0 <= j < i implies t[j].0 != k by {
                assert(s[j].0 == t[j].0);
            }
            assert(s[i].0 == t[i].0);
            lemma_obj_find_is(t, k, i);
        },
        None => {
            if let Some(i) = obj_find(t, k) {
                assert(s[i].0 == t[i].0);
            }
        },
    }
}

/// In sorted entries the key `k` sits nowhere, or at its lower bound.
proof fn lemma_sorted_key_position(s: Seq<(Seq<char>, Model)>, k: Seq<char>, j: int)
    requires
        keys_sorted(s),
        0 <= j < s.len(),
        s[j].0 == k,
    ensures
        j == lower_bound(s, k),
{
    lemma_lower_bound(s, k);
    lemma_key_lt_irreflexive(k);
    let p = lower_bound(s, k);
    if p < j {
        assert(key_lt(s[p].0, s[j].0));
    }
    if j < p {
        assert(key_lt(s[j].0, k));
    }
}

/// After `k` is mapped to `v` in sorted entries, `k` holds `v` and every other key keeps
/// its value.
pub proof fn lemma_obj_insert_get(s: Seq<(Seq<char>, Model)>, k: Seq<char>, v: Model, k2: Seq<char>)
    requires
        keys_sorted(s),
    ensures
        obj_get(obj_insert(s, k, v), k) == Some(v),
        k2 != k ==> obj_get(obj_insert(s, k, v), k2) == obj_get(s, k2),
{
    let p = lower_bound(s, k);
    let r = obj_insert(s, k, v);
    lemma_lower_bound(s, k);
    lemma_key_lt_irreflexive(k);
    lemma_obj_find(s, k2);
    if p < s.len() && s[p].0 == k {
        assert forall|j: int| 0 <= j < p implies r[j].0 != k by {
            assert(key_lt(s[j].0, k));
        }
        lemma_obj_find_is(r, k, p);
        if k2 != k {
            lemma_obj_find_same_keys(s, r, k2);
            if let Some(i) = obj_find(s, k2) {
                assert(i != p);
            }
        }
    } else {
        assert forall|j: int| 0 <= j < p implies r[j].0 != k by {
            assert(key_lt(s[j].0, k));
        }
        lemma_obj_find_is(r, k, p);
        if k2 != k {
            assert forall|j: int| 0 <= j < s.len() implies s[j].0 != k by {
                if s[j].0 == k {
                    lemma_sorted_key_position(s, k, j);
                }
            }
            match obj_find(s, k2) {
                Some(i) => {
                    let i2 = if i < p { i } else { i + 1 };
                    assert forall|j: int| 0 <= j < i2 implies r[j].0 != k2 by {
                        if j < p {
                            assert(r[j] == s[j]);
                        } else if j > p {
                            assert(r[j] == s[j - 1]);
                        }
                    }
                    assert(r[i2] == s[i]);
                    lemma_obj_find_is(r, k2, i2);
                },
                None => {
                    lemma_obj_find(r, k2);
                    if let Some(i) = obj_find(r, k2) {
                        if i < p {
                            assert(r[i] == s[i]);
                        } else if i > p {
                            assert(r[i] == s[i - 1]);
                        }
                    }
                },
            }
        }
    }
}

/// Mapping a key in sorted entries keeps them sorted.
pub proof fn lemma_obj_insert_sorted(s: Seq<(Seq<char>, Model)>, k: Seq<char>, v: Model)
    requires
        keys_sorted(s),
    ensures
        keys_sorted(obj_insert(s, k, v)),
{
    let p = lower_bound(s, k);
    let r = obj_insert(s, k, v);
    lemma_lower_bound(s, k);
    if p < s.len() && s[p].0 == k {
        assert forall|i: int, j: int| 0 <= i < j < r.len() implies key_lt(#[trigger] r[i].0, #[trigger] r[j].0) by {
            assert(r[i].0 == s[i].0);
            assert(r[j].0 == s[j].0);
        }
    } else {
        assert forall|i: int, j: int| 0 <= i < j < r.len() implies key_lt(#[trigger] r[i].0, #[trigger] r[j].0) by {
            if p < s.len() {
                lemma_key_lt_total(s[p].0, k);
            }
            if i < p && j == p {
                assert(key_lt(s[i].0, k));
            } else if i == p && j > p {
                assert(r[j] == s[j - 1]);
                if j - 1 > p {
                    assert(key_lt(s[p].0, s[j - 1].0));
                    lemma_key_lt_transitive(k, s[p].0, s[j - 1].0);
                }
            } else if i < p && j > p {
                assert(r[j] == s[j - 1]);
                assert(key_lt(s[i].0, s[j - 1].0));
            } else if i > p {
                assert(r[i] == s[i - 1]);
                assert(r[j] == s[j - 1]);
                assert(key_lt(s[i - 1].0, s[j - 1].0));
            } else {
                assert(r[i] == s[i]);
                assert(r[j] == s[j]);
            }
        }
    }
}

/// A well-formed document: every object in it has strictly ascending keys, as the type
/// invariant of `ObjectMap` keeps them.
pub open spec fn wf(m: Model) -> bool
    decreases m, 0nat,
{
    match m {
        Model::Array(a) => wf_items(a),
        Model::Object(e) => keys_sorted(e) && wf_entries(e),
        _ => true,
    }
}

/// Every element is well-formed.
pub open spec fn wf_items(s: Seq<Model>) -> bool
    decreases s, 1nat,
{
    if s.len() == 0 {
        true
    } else {
        wf_items(s.drop_last()) && wf(s.last())
    }
}

/// Every entry's value is well-formed.
pub open spec fn wf_entries(s: Seq<(Seq<char>, Model)>) -> bool
    decreases s, 1nat,
{
    if s.len() == 0 {
        true
    } else {
        wf_entries(s.drop_last()) && wf(s.last().1)
    }
}

/// `wf_items` holds exactly when each element is well-formed.
pub proof fn lemma_wf_items(s: Seq<Model>)
    ensures
        wf_items(s) <==> forall|i: int| 0 <= i < s.len() ==> #[trigger] wf(s[i]),
    decreases s.len(),
{
    if s.len() > 0 {
        lemma_wf_items(s.drop_last());
        if wf_items(s) {
            assert forall|i: int| 0 <= i < s.len() implies #[trigger] wf(s[i]) by {
                if i < s.len() - 1 {
                    assert(s[i] == s.drop_last()[i]);
                }
            }
        }
        if forall|i: int| 0 <= i < s.len() ==> #[trigger] wf(s[i]) {
            assert forall|i: int| 0 <= i < s.drop_last().len() implies #[trigger] wf(s.drop_last()[i]) by {
                assert(s[i] == s.drop_last()[i]);
            }
            assert(wf(s[s.len() - 1]));
        }
    }
}

/// `wf_entries` holds exactly when each entry's value is well-formed.
pub proof fn lemma_wf_entries(s: Seq<(Seq<char>, Model)>)
    ensures
        wf_entries(s) <==> forall|i: int| 0 <= i < s.len() ==> #[trigger] wf(s[i].1),
    decreases s.len(),
{
    if s.len() > 0 {
        lemma_wf_entries(s.drop_last());
        if wf_entries(s) {
            assert forall|i: int| 0 <= i < s.len() implies #[trigger] wf(s[i].1) by {
                if i < s.len() - 1 {
                    assert(s[i] == s.drop_last()[i]);
                }
            }
        }
        if forall|i: int| 0 <= i < s.len() ==> #[trigger] wf(s[i].1) {
            assert forall|i: int| 0 <= i < s.drop_last().len() implies #[trigger] wf(s.drop_last()[i].1) by {
                assert(s[i] == s.drop_last()[i]);
            }
            assert(wf(s[s.len() - 1].1));
        }
    }
}

/// The value under a key of a well-formed object is well-formed.
pub proof fn lemma_wf_get(e: Seq<(Seq<char>, Model)>, k: Seq<char>)
    requires
        wf(Model::Object(e)),
    ensures
        keys_sorted(e),
        obj_get(e, k) matches Some(c) ==> wf(c),
{
    lemma_obj_find(e, k);
    lemma_wf_entries(e);
    if let Some(i) = obj_find(e, k) {
        assert(wf(e[i].1));
    }
}

/// The elements of a well-formed array are well-formed.
pub proof fn lemma_wf_index(a: Seq<Model>, i: int)
    requires
        wf(Model::Array(a)),
        0 <= i < a.len(),
    ensures
        wf(a[i]),
{
    lemma_wf_items(a);
}

/// Finding a key in a sequence with one more entry at the end.
pub proof fn lemma_obj_find_push(r: Seq<(Seq<char>, Model)>, e: (Seq<char>, Model), k: Seq<char>)
    ensures
        obj_find(r.push(e), k) == (match obj_find(r, k) {
            Some(i) => Some(i),
            None => if e.0 == k {
                Some(r.len() as int)
            } else {
                None
            },
        }),
{
    let r2 = r.push(e);
    lemma_obj_find(r, k);
    lemma_obj_find(r2, k);
    assert(forall|j: int| 0 <= j < r.len() ==> #[trigger] r2[j] == r[j]);
    match obj_find(r, k) {
        Some(i) => {
            lemma_obj_find_is(r2, k, i);
        },
        None => {
            if e.0 == k {
                lemma_obj_find_is(r2, k, r.len() as int);
            }
        },
    }
}

/// After a removal no entry holds the key, and every other key keeps its value.
pub proof fn lemma_obj_remove_get(s: Seq<(Seq<char>, Model)>, k: Seq<char>, k2: Seq<char>)
    ensures
        obj_get(obj_remove(s, k), k) is None,
        k2 != k ==> obj_get(obj_remove(s, k), k2) == obj_get(s, k2),
    decreases s.len(),
{
    if s.len() > 0 {
        lemma_obj_remove_get(s.drop_last(), k, k2);
        let r = obj_remove(s.drop_last(), k);
        assert(s == s.drop_last().push(s.last()));
        lemma_obj_find_push(s.drop_last(), s.last(), k2);
        lemma_obj_find_push(s.drop_last(), s.last(), k);
        lemma_obj_find_push(r, s.last(), k2);
        lemma_obj_find_push(r, s.last(), k);
        lemma_obj_find(r, k2);
        lemma_obj_find(s.drop_last(), k2);
        if obj_find(r, k2) is Some {
            assert(r.push(s.last())[obj_find(r, k2).unwrap()] == r[obj_find(r, k2).unwrap()]);
        }
        if obj_find(s.drop_last(), k2) is Some {
            assert(s[obj_find(s.drop_last(), k2).unwrap()] == s.drop_last()[obj_find(s.drop_last(), k2).unwrap()]);
        }
    }
}

/// The outcome of comparing two keys.
pub enum KeyOrder {
    Less,
    Equal,
    Greater,
}

proof fn lemma_key_lt_common_prefix(a: Seq<char>, b: Seq<char>, i: int)
    requires
        0 <= i <= a.len(),
        i <= b.len(),
        a.take(i) == b.take(i),
    ensures
        key_lt(a, b) == key_lt(a.skip(i), b.skip(i)),
    decreases i,
{
    if i > 0 {
        assert(a[0] == a.take(i)[0]);
        assert(b[0] == b.take(i)[0]);
        assert(a.drop_first().take(i - 1) =~= a.take(i).drop_first());
        assert(b.drop_first().take(i - 1) =~= b.take(i).drop_first());
        lemma_key_lt_common_prefix(a.drop_first(), b.drop_first(), i - 1);
        assert(a.drop_first().skip(i - 1) =~= a.skip(i));
        assert(b.drop_first().skip(i - 1) =~= b.skip(i));
    } else {
        assert(a.skip(0) =~= a);
        assert(b.skip(0) =~= b);
    }
}

/// Compares two keys in the order of `key_lt`.
pub fn compare_keys(a: &[char], b: &[char]) -> (r: KeyOrder)
    ensures
        r is Less <==> key_lt(a@, b@),
        r is Equal <==> a@ == b@,
        r is Greater <==> key_lt(b@, a@),
{
    let mut i: usize = 0;
    while i < a.len() && i < b.len()
        invariant
            i <= a.len(),
            i <= b.len(),
            a@.take(i as int) == b@.take(i as int),
        decreases a.len() - i,
    {
        if a[i] != b[i] {
            proof {
                lemma_key_lt_common_prefix(a@, b@, i as int);
                lemma_key_lt_common_prefix(b@, a@, i as int);
                assert(a@.skip(i as int)[0] == a@[i as int]);
                assert(b@.skip(i as int)[0] == b@[i as int]);
                assert((a@[i as int] as int) != (b@[i as int] as int));
            }
            if a[i] < b[i] {
                proof {
                    lemma_key_lt_asymmetric(a@, b@);
                }
                return KeyOrder::Less;
            } else {
                proof {
                    lemma_key_lt_asymmetric(b@, a@);
                }
                return KeyOrder::Greater;
            }
        }
        assert(a@.take(i + 1) =~= a@.take(i as int).push(a@[i as int]));
        assert(b@.take(i + 1) =~= b@.take(i as int).push(b@[i as int]));
        i = i + 1;
    }
    proof {
        lemma_key_lt_common_prefix(a@, b@, i as int);
        lemma_key_lt_common_prefix(b@, a@, i as int);
        lemma_key_lt_irreflexive(a@);
    }
    if a.len() == b.len() {
        assert(a@ =~= a@.take(i as int));
        assert(b@ =~= b@.take(i as int));
        KeyOrder::Equal
    } else if a.len() < b.len() {
        assert(a@.skip(i as int).len() == 0);
        proof {
            lemma_key_lt_asymmetric(a@, b@);
        }
        KeyOrder::Less
    } else {
        assert(b@.skip(i as int).len() == 0);
        proof {
            lemma_key_lt_asymmetric(b@, a@);
        }
        KeyOrder::Greater
    }
}

impl ObjectMap {
    /// The keys of a map are strictly ascending.
    #[verifier::type_invariant]
    pub open spec fn sorted(self) -> bool {
        keys_sorted(self@)
    }

    /// An empty map.
    pub fn new() -> (r: ObjectMap)
        ensures
            r@ == Seq::<(Seq<char>, Model)>::empty(),
    {
        let r = ObjectMap { entries: Vec::new() };
        proof {
            lemma_entry_models(r.entries@);
            assert(r@ =~= Seq::<(Seq<char>, Model)>::empty());
        }
        r
    }

    /// The number of entries.
    pub fn len(&self) -> (r: usize)
        ensures
            r == self@.len(),
    {
        proof {
            lemma_entry_models(self.entries@);
        }
        self.entries.len()
    }

    /// Whether the map has no entries.
    pub fn is_empty(&self) -> (r: bool)
        ensures
            r == (self@.len() == 0),
    {
        self.len() == 0
    }

    /// The key of the entry at index `i`.
    pub fn key_at(&self, i: usize) -> (r: &String)
        requires
            i < self@.len(),
        ensures
            r@ == self@[i as int].0,
    {
        proof {
            lemma_entry_models(self.entries@);
        }
        &self.entries[i].0
    }

    /// The value of the entry at index `i`.
    pub fn value_at(&self, i: usize) -> (r: &Value)
        requires
            i < self@.len(),
        ensures
            r.model() == self@[i as int].1,
            decreases_to!(*self => *r),
    {
        proof {
            lemma_entry_models(self.entries@);
        }
        &self.entries[i].1
    }

    /// The index of the entry with key `key`.
    pub fn find(&self, key: &[char]) -> (r: Option<usize>)
        ensures
            match r {
                Some(i) => obj_find(self@, key@) == Some(i as int),
                None => obj_find(self@, key@) is None,
            },
    {
        proof {
            lemma_entry_models(self.entries@);
            lemma_obj_find(self@, key@);
        }
        let mut i: usize = 0;
        while i < self.entries.len()
            invariant
                i <= self.entries@.len(),
                self@.len() == self.entries@.len(),
                forall|j: int| 0 <= j < i ==> self@[j].0 != key@,
                forall|j: int|
                    0 <= j < self.entries@.len() ==> #[trigger] self@[j] == (
                        self.entries@[j].0@,
                        self.entries@[j].1.model(),
                    ),
            decreases self.entries@.len() - i,
        {
            let k = chars_of(self.entries[i].0.as_str());
            if crate::text::chars_equal(k.as_slice(), key) {
                proof {
                    lemma_obj_find_is(self@, key@, i as int);
                }
                return Some(i);
            }
            i = i + 1;
        }
        None
    }

    /// The value stored under `key`.
    pub fn get(&self, key: &str) -> (r: Option<&Value>)
        ensures
            match r {
                Some(v) => obj_get(self@, key@) == Some(v.model()),
                None => obj_get(self@, key@) is None,
            },
    {
        let k = chars_of(key);
        proof {
            lemma_obj_find(self@, key@);
        }
        match self.find(k.as_slice()) {
            Some(i) => Some(self.value_at(i)),
            None => None,
        }
    }

    /// Whether some entry has key `key`.
    pub fn contains_key(&self, key: &str) -> (r: bool)
        ensures
            r == (obj_find(self@, key@) is Some),
    {
        let k = chars_of(key);
        self.find(k.as_slice()).is_some()
    }

    /// The index of the first entry whose key is not below `key`.
    fn lower_bound(&self, key: &[char]) -> (r: usize)
        ensures
            r as int == lower_bound(self@, key@),
    {
        proof {
            lemma_entry_models(self.entries@);
            lemma_lower_bound(self@, key@);
            use_type_invariant(self);
        }
        let mut i: usize = 0;
        while i < self.entries.len()
            invariant
                i <= self.entries@.len(),
                self@.len() == self.entries@.len(),
                forall|j: int| 0 <= j < i ==> key_lt(#[trigger] self@[j].0, key@),
                forall|j: int|
                    0 <= j < self.entries@.len() ==> #[trigger] self@[j] == (
                        self.entries@[j].0@,
                        self.entries@[j].1.model(),
                    ),
                0 <= lower_bound(self@, key@) <= self@.len(),
                forall|j: int| 0 <= j < lower_bound(self@, key@) ==> key_lt(#[trigger] self@[j].0, key@),
                lower_bound(self@, key@) < self@.len() ==> !key_lt(self@[lower_bound(self@, key@)].0, key@),
            decreases self.entries@.len() - i,
        {
            let k = chars_of(self.entries[i].0.as_str());
            match compare_keys(k.as_slice(), key) {
                KeyOrder::Less => {},
                _ => {
                    proof {
                        if (i as int) < lower_bound(self@, key@) {
                            assert(key_lt(self@[i as int].0, key@));
                        }
                        if lower_bound(self@, key@) < i {
                            assert(key_lt(self@[lower_bound(self@, key@)].0, key@));
                        }
                    }
                    return i;
                },
            }
            i = i + 1;
        }
        i
    }

    /// Removes the entry with key `key` and returns its value.
    pub fn remove(&mut self, key: &str) -> (r: Option<Value>)
        ensures
            final(self)@ == obj_remove(old(self)@, key@),
            match r {
                Some(v) => obj_get(old(self)@, key@) == Some(v.model()),
                None => obj_get(old(self)@, key@) is None,
            },
    {
        proof {
            use_type_invariant(&*self);
            lemma_entry_models(self.entries@);
            lemma_obj_find(self@, key@);
        }
        let ghost old_view = self@;
        let k = chars_of(key);
        match self.find(k.as_slice()) {
            None => {
                proof {
                    lemma_obj_remove_absent(old_view, key@);
                }
                None
            },
            Some(i) => {
                proof {
                    assert forall|j: int| 0 <= j < old_view.len() && j != i implies old_view[j].0 != key@ by {
                        if j < i {
                            assert(key_lt(old_view[j].0, old_view[i as int].0));
                        } else {
                            assert(key_lt(old_view[i as int].0, old_view[j].0));
                        }
                        lemma_key_lt_irreflexive(key@);
                    }
                    lemma_obj_remove_single(old_view, key@, i as int);
                }
                let mut entries: Vec<(String, Value)> = Vec::new();
                std::mem::swap(&mut entries, &mut self.entries);
                let pair = entries.remove(i);
                proof {
                    lemma_entry_models(entries@);
                    assert(entry_models(entries@) =~= old_view.remove(i as int));
                    let s = entry_models(entries@);
                    assert forall|a: int, b: int| 0 <= a < b < s.len() implies key_lt(#[trigger] s[a].0, #[trigger] s[b].0) by {
                        let a2 = if a < i { a } else { a + 1 };
                        let b2 = if b < i { b } else { b + 1 };
                        assert(s[a] == old_view[a2]);
                        assert(s[b] == old_view[b2]);
                    }
                }
                self.entries = entries;
                proof {
                    lemma_entry_models(self.entries@);
                }
                Some(pair.1)
            },
        }
    }

    /// Takes the value at index `i` out of the map, leaving `Null` in its place.
    pub fn take_at(&mut self, i: usize) -> (r: Value)
        requires
            i < old(self)@.len(),
        ensures
            r.model() == old(self)@[i as int].1,
            final(self)@ == old(self)@.update(i as int, (old(self)@[i as int].0, Model::Null)),
    {
        self.replace_at(i, Value::Null)
    }

    /// Stores `v` as the value at index `i` and returns the value it replaces.
    pub fn replace_at(&mut self, i: usize, v: Value) -> (r: Value)
        requires
            i < old(self)@.len(),
        ensures
            r.model() == old(self)@[i as int].1,
            final(self)@ == old(self)@.update(i as int, (old(self)@[i as int].0, v.model())),
    {
        proof {
            use_type_invariant(&*self);
            lemma_entry_models(self.entries@);
        }
        let ghost old_view = self@;
        let ghost vm = v.model();
        let mut entries: Vec<(String, Value)> = Vec::new();
        std::mem::swap(&mut entries, &mut self.entries);
        let key = copy_string(&entries[i].0);
        let mut pair = (key, v);
        entries.set_and_swap(i, &mut pair);
        proof {
            lemma_entry_models(entries@);
            assert(entry_models(entries@) =~= old_view.update(i as int, (old_view[i as int].0, vm)));
        }
        self.entries = entries;
        proof {
            lemma_entry_models(self.entries@);
        }
        pair.1
    }

    /// Maps `key` to `value`, keeping the keys in order; returns the value it replaces.
    pub fn insert(&mut self, key: String, value: Value) -> (r: Option<Value>)
        ensures
            final(self)@ == obj_insert(old(self)@, key@, value.model()),
            match r {
                Some(v) => obj_get(old(self)@, key@) == Some(v.model()),
                None => obj_get(old(self)@, key@) is None,
            },
    {
        proof {
            use_type_invariant(&*self);
            lemma_entry_models(self.entries@);
            lemma_lower_bound(self@, key@);
        }
        let k = chars_of(key.as_str());
        let p = self.lower_bound(k.as_slice());
        let ghost old_view = self@;
        let ghost kv = key@;
        let ghost vm = value.model();
        if p < self.entries.len() {
            let pk = chars_of(self.entries[p].0.as_str());
            if crate::text::chars_equal(pk.as_slice(), k.as_slice()) {
                proof {
                    assert forall|j: int| 0 <= j < p implies old_view[j].0 != kv by {
                        lemma_key_lt_irreflexive(kv);
                    }
                    lemma_obj_find_is(old_view, kv, p as int);
                }
                let mut pair = (key, value);
                let mut entries: Vec<(String, Value)> = Vec::new();
                std::mem::swap(&mut entries, &mut self.entries);
                entries.set_and_swap(p, &mut pair);
                proof {
                    lemma_entry_models(entries@);
                    assert(entry_models(entries@) =~= old_view.update(p as int, (kv, vm)));
                }
                self.entries = entries;
                proof {
                    lemma_entry_models(self.entries@);
                    assert(self@ =~= old_view.update(p as int, (kv, vm)));
                }
                return Some(pair.1);
            }
        }
        proof {
            lemma_obj_find(old_view, kv);
            assert forall|j: int| 0 <= j < old_view.len() implies old_view[j].0 != kv by {
                lemma_key_lt_irreflexive(kv);
                if j > p {
                    assert(key_lt(old_view[p as int].0, old_view[j].0));
                    lemma_key_lt_total(old_view[p as int].0, kv);
                    if key_lt(kv, old_view[p as int].0) {
                        lemma_key_lt_transitive(kv, old_view[p as int].0, old_view[j].0);
                    }
                }
            }
        }
        let mut entries: Vec<(String, Value)> = Vec::new();
        std::mem::swap(&mut entries, &mut self.entries);
        entries.insert(p, (key, value));
        proof {
            lemma_entry_models(entries@);
            assert(entry_models(entries@) =~= old_view.insert(p as int, (kv, vm)));
            let s = entry_models(entries@);
            assert forall|i: int, j: int| 0 <= i < j < s.len() implies key_lt(#[trigger] s[i].0, #[trigger] s[j].0) by {
                if p < old_view.len() {
                    lemma_key_lt_total(old_view[p as int].0, kv);
                }
                if i == p && j > p {
                    lemma_key_lt_total(old_view[p as int].0, kv);
                    if j - 1 > p {
                        assert(key_lt(old_view[p as int].0, old_view[j - 1].0));
                        lemma_key_lt_transitive(kv, old_view[p as int].0, old_view[j - 1].0);
                    }
                }
            }
        }
        self.entries = entries;
        proof {
            lemma_entry_models(self.entries@);
            assert(self@ =~= old_view.insert(p as int, (kv, vm)));
            let s = self@;
            assert forall|i: int, j: int| 0 <= i < j < s.len() implies key_lt(#[trigger] s[i].0, #[trigger] s[j].0) by {
                if p < old_view.len() {
                    lemma_key_lt_total(old_view[p as int].0, kv);
                }
                if i < p && j == p {
                } else if i == p && j > p {
                    lemma_key_lt_total(old_view[p as int].0, kv);
                    if j - 1 > p {
                        assert(key_lt(old_view[p as int].0, old_view[j - 1].0));
                        lemma_key_lt_transitive(kv, old_view[p as int].0, old_view[j - 1].0);
                    }
                } else if i < p && j > p {
                } else if i > p {
                }
            }
        }
        None
    }
}


impl Value {
    pub fn is_null(&self) -> (r: bool)
        ensures
            r == (self.model() is Null),
    {
        match self {
            Value::Null => true,
            _ => false,
        }
    }

    pub fn is_bool(&self) -> (r: bool)
        ensures
            r == (self.model() is Bool),
    {
        match self {
            Value::Bool(_) => true,
            _ => false,
        }
    }

    pub fn as_bool(&self) -> (r: Option<bool>)
        ensures
            r == (match self.model() {
                Model::Bool(b) => Some(b),
                _ => None,
            }),
    {
        match self {
            Value::Bool(b) => Some(*b),
            _ => None,
        }
    }

    pub fn is_integer(&self) -> (r: bool)
        ensures
            r == (self.model() is Integer),
    {
        match self {
            Value::Integer(_) => true,
            _ => false,
        }
    }

    pub fn as_integer(&self) -> (r: Option<i64>)
        ensures
            r == (match self.model() {
                Model::Integer(i) => Some(i),
                _ => None,
            }),
    {
        match self {
            Value::Integer(i) => Some(*i),
            _ => None,
        }
    }

    pub fn is_unsigned(&self) -> (r: bool)
        ensures
            r == (self.model() is Unsigned),
    {
        match self {
            Value::Unsigned(_) => true,
            _ => false,
        }
    }

    pub fn as_unsigned(&self) -> (r: Option<u64>)
        ensures
            r == (match self.model() {
                Model::Unsigned(u) => Some(u),
                _ => None,
            }),
    {
        match self {
            Value::Unsigned(u) => Some(*u),
            _ => None,
        }
    }

    pub fn is_float(&self) -> (r: bool)
        ensures
            r == (self.model() is Float),
    {
        match self {
            Value::Float(_) => true,
            _ => false,
        }
    }

    /// The decimal text of a floating-point value.
    pub fn as_float(&self) -> (r: Option<&str>)
        ensures
            match self.model() {
                Model::Float(t) => r is Some && r.unwrap()@ == t,
                _ => r is None,
            },
    {
        match self {
            Value::Float(t) => Some(t.as_str()),
            _ => None,
        }
    }

    pub fn is_string(&self) -> (r: bool)
        ensures
            r == (self.model() is Str),
    {
        match self {
            Value::String(_) => true,
            _ => false,
        }
    }

    pub fn as_str(&self) -> (r: Option<&str>)
        ensures
            match self.model() {
                Model::Str(t) => r is Some && r.unwrap()@ == t,
                _ => r is None,
            },
    {
        match self {
            Value::String(t) => Some(t.as_str()),
            _ => None,
        }
    }

    pub fn is_array(&self) -> (r: bool)
        ensures
            r == (self.model() is Array),
    {
        match self {
            Value::Array(_) => true,
            _ => false,
        }
    }

    pub fn as_array(&self) -> (r: Option<&Vec<Value>>)
        ensures
            match self.model() {
                Model::Array(a) => r is Some && models(r.unwrap()@) == a,
                _ => r is None,
            },
    {
        match self {
            Value::Array(a) => Some(a),
            _ => None,
        }
    }

    pub fn is_object(&self) -> (r: bool)
        ensures
            r == (self.model() is Object),
    {
        match self {
            Value::Object(_) => true,
            _ => false,
        }
    }

    pub fn as_object(&self) -> (r: Option<&ObjectMap>)
        ensures
            match self.model() {
                Model::Object(e) => r is Some && r.unwrap()@ == e,
                _ => r is None,
            },
    {
        match self {
            Value::Object(o) => Some(o),
            _ => None,
        }
    }

    pub fn as_object_mut(&mut self) -> (r: Option<&mut ObjectMap>)
        ensures
            match *old(self) {
                Value::Object(m) => r is Some && *r.unwrap() == m && *final(self) == Value::Object(*final(r.unwrap())),
                _ => r is None && *final(self) == *old(self),
            },
    {
        match self {
            Value::Object(o) => Some(o),
            _ => None,
        }
    }

    pub fn as_array_mut(&mut self) -> (r: Option<&mut Vec<Value>>)
        ensures
            match *old(self) {
                Value::Array(a) => r is Some && *r.unwrap() == a && *final(self) == Value::Array(*final(r.unwrap())),
                _ => r is None && *final(self) == *old(self),
            },
    {
        match self {
            Value::Array(a) => Some(a),
            _ => None,
        }
    }

    /// The value stored under `key` when this is an object.
    pub fn get(&self, key: &str) -> (r: Option<&Value>)
        ensures
            match self.model() {
                Model::Object(e) => match obj_get(e, key@) {
                    Some(v) => r is Some && r.unwrap().model() == v,
                    None => r is None,
                },
                _ => r is None,
            },
    {
        match self {
            Value::Object(o) => o.get(key),
            _ => None,
        }
    }

    /// A copy of this value.
    #[verifier::loop_isolation(false)]
    pub fn deep_clone(&self) -> (r: Value)
        ensures
            r.model() == self.model(),
        decreases self, 0nat,
    {
        match self {
            Value::Null => Value::Null,
            Value::Bool(b) => Value::Bool(*b),
            Value::Integer(i) => Value::Integer(*i),
            Value::Unsigned(u) => Value::Unsigned(*u),
            Value::Float(t) => Value::Float(copy_string(t)),
            Value::String(t) => Value::String(copy_string(t)),
            Value::Array(a) => {
                let mut out: Vec<Value> = Vec::new();
                let mut i: usize = 0;
                proof {
                    lemma_models(a@);
                }
                while i < a.len()
                    invariant
                        i <= a.len(),
                        out@.len() == i,
                        forall|j: int| 0 <= j < i ==> (#[trigger] out@[j]).model() == a@[j].model(),
                    decreases a.len() - i,
                {
                    proof {
                        assert(decreases_to!(self => a));
                        assert(decreases_to!(a => a[i as int]));
                    }
                    let c = a[i].deep_clone();
                    out.push(c);
                    i = i + 1;
                }
                proof {
                    lemma_models(out@);
                    assert(models(out@) =~= models(a@));
                }
                Value::Array(out)
            },
            Value::Object(m) => {
                proof {
                    assert(decreases_to!(self => m));
                }
                Value::Object(m.deep_clone())
            },
        }
    }
}

impl ObjectMap {
    /// A copy of this map.
    pub fn deep_clone(&self) -> (r: ObjectMap)
        ensures
            r@ == self@,
        decreases self, 0nat,
    {
        proof {
            use_type_invariant(self);
            lemma_entry_models(self.entries@);
        }
        let mut out: Vec<(String, Value)> = Vec::new();
        let mut i: usize = 0;
        while i < self.entries.len()
            invariant
                i <= self.entries@.len(),
                out@.len() == i,
                forall|j: int|
                    0 <= j < i ==> (#[trigger] out@[j]).0@ == self.entries@[j].0@ && out@[j].1.model()
                        == self.entries@[j].1.model(),
            decreases self.entries@.len() - i,
        {
            proof {
                assert(decreases_to!(self => self.entries));
                assert(decreases_to!(self.entries => self.entries[i as int]));
                assert(decreases_to!(self.entries[i as int] => self.entries[i as int].1));
            }
            let k = copy_string(&self.entries[i].0);
            let v = self.entries[i].1.deep_clone();
            out.push((k, v));
            i = i + 1;
        }
        proof {
            lemma_entry_models(out@);
            assert(entry_models(out@) =~= self@);
        }
        ObjectMap { entries: out }
    }
}

/// Every value the library holds is well-formed: the type invariant of each object map in
/// it keeps that map's keys strictly ascending. The laws are stated for well-formed models;
/// this is how a caller holding a `Value` meets that premise.
#[verifier::loop_isolation(false)]
pub fn value_wf(v: &Value)
    ensures
        wf(v.model()),
    decreases v, 0nat,
{
    match v {
        Value::Array(a) => {
            proof {
                lemma_models(a@);
            }
            let mut i: usize = 0;
            while i < a.len()
                invariant
                    i <= a.len(),
                    forall|j: int| 0 <= j < i ==> #[trigger] wf(models(a@)[j]),
                    forall|j: int| 0 <= j < a.len() ==> #[trigger] models(a@)[j] == a@[j].model(),
                decreases a.len() - i,
            {
                proof {
                    assert(decreases_to!(v => a));
                    assert(decreases_to!(a => a[i as int]));
                }
                value_wf(&a[i]);
                i = i + 1;
            }
            proof {
                lemma_wf_items(models(a@));
            }
        },
        Value::Object(m) => {
            proof {
                assert(decreases_to!(v => m));
            }
            m.entries_wf();
        },
        _ => {},
    }
}

impl ObjectMap {
    /// The map's keys are strictly ascending and each value in it is well-formed.
    pub fn entries_wf(&self)
        ensures
            keys_sorted(self@),
            wf_entries(self@),
        decreases self, 0nat,
    {
        proof {
            use_type_invariant(self);
            lemma_entry_models(self.entries@);
        }
        let mut i: usize = 0;
        while i < self.entries.len()
            invariant
                i <= self.entries@.len(),
                self@.len() == self.entries@.len(),
                forall|j: int| 0 <= j < self.entries@.len() ==> #[trigger] self@[j] == (self.entries@[j].0@, self.entries@[j].1.model()),
                forall|j: int| 0 <= j < i ==> #[trigger] wf(self@[j].1),
            decreases self.entries@.len() - i,
        {
            proof {
                assert(decreases_to!(self => self.entries));
                assert(decreases_to!(self.entries => self.entries[i as int]));
                assert(decreases_to!(self.entries[i as int] => self.entries[i as int].1));
            }
            value_wf(&self.entries[i].1);
            proof {
                assert(self@[i as int] == (self.entries@[i as int].0@, self.entries@[i as int].1.model()));
            }
            i = i + 1;
        }
        proof {
            lemma_wf_entries(self@);
        }
    }
}

impl Clone for Value {
    fn clone(&self) -> (r: Self)
        ensures
            r.model() == self.model(),
    {
        self.deep_clone()
    }
}

impl Default for ObjectMap {
    fn default() -> (r: Self)
        ensures
            r@ == Seq::<(Seq<char>, Model)>::empty(),
    {
        ObjectMap::new()
    }
}

impl Clone for ObjectMap {
    fn clone(&self) -> (r: Self)
        ensures
            r@ == self@,
    {
        self.deep_clone()
    }
}

/// Whether two values have the same model.
#[verifier::loop_isolation(false)]
pub fn values_equal(a: &Value, b: &Value) -> (r: bool)
    ensures
        r == (a.model() == b.model()),
    decreases a, 0nat,
{
    match (a, b) {
        (Value::Null, Value::Null) => true,
        (Value::Bool(x), Value::Bool(y)) => *x == *y,
        (Value::Integer(x), Value::Integer(y)) => *x == *y,
        (Value::Unsigned(x), Value::Unsigned(y)) => *x == *y,
        (Value::Float(x), Value::Float(y)) => str_equal(x.as_str(), y.as_str()),
        (Value::String(x), Value::String(y)) => str_equal(x.as_str(), y.as_str()),
        (Value::Array(x), Value::Array(y)) => {
            proof {
                lemma_models(x@);
                lemma_models(y@);
            }
            if x.len() != y.len() {
                return false;
            }
            let mut i: usize = 0;
            while i < x.len()
                invariant
                    i <= x.len(),
                    x.len() == y.len(),
                    models(x@).len() == x@.len(),
                    models(y@).len() == y@.len(),
                    forall|j: int| 0 <= j < i ==> #[trigger] models(x@)[j] == models(y@)[j],
                    forall|j: int| 0 <= j < x.len() ==> #[trigger] models(x@)[j] == x@[j].model(),
                    forall|j: int| 0 <= j < y.len() ==> #[trigger] models(y@)[j] == y@[j].model(),
                decreases x.len() - i,
            {
                proof {
                    assert(decreases_to!(a => x));
                    assert(decreases_to!(x => x[i as int]));
                }
                if !values_equal(&x[i], &y[i]) {
                    assert(models(x@)[i as int] != models(y@)[i as int]);
                    return false;
                }
                i = i + 1;
            }
            assert(models(x@) =~= models(y@));
            true
        },
        (Value::Object(x), Value::Object(y)) => objects_equal(x, y),
        _ => false,
    }
}

fn objects_equal(a: &ObjectMap, b: &ObjectMap) -> (r: bool)
    ensures
        r == (a@ == b@),
    decreases a, 0nat,
{
    proof {
        lemma_entry_models(a.entries@);
        lemma_entry_models(b.entries@);
    }
    if a.entries.len() != b.entries.len() {
        return false;
    }
    let mut i: usize = 0;
    while i < a.entries.len()
        invariant
            i <= a.entries.len(),
            a.entries.len() == b.entries.len(),
            a@.len() == a.entries@.len(),
            b@.len() == b.entries@.len(),
            forall|j: int| 0 <= j < i ==> #[trigger] a@[j] == b@[j],
            forall|j: int|
                0 <= j < a.entries.len() ==> #[trigger] a@[j] == (a.entries@[j].0@, a.entries@[j].1.model()),
            forall|j: int|
                0 <= j < b.entries.len() ==> #[trigger] b@[j] == (b.entries@[j].0@, b.entries@[j].1.model()),
        decreases a.entries.len() - i,
    {
        proof {
            assert(decreases_to!(a => a.entries));
            assert(decreases_to!(a.entries => a.entries[i as int]));
            assert(decreases_to!(a.entries[i as int] => a.entries[i as int].1));
        }
        if !str_equal(a.entries[i].0.as_str(), b.entries[i].0.as_str()) {
            assert(a@[i as int] != b@[i as int]);
            return false;
        }
        if !values_equal(&a.entries[i].1, &b.entries[i].1) {
            assert(a@[i as int] != b@[i as int]);
            return false;
        }
        i = i + 1;
    }
    assert(a@ =~= b@);
    true
}

} // verus!
