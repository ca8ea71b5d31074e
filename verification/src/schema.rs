//! Field schemas and the documentation rendered from them: a markdown reference and
//! annotated TOML and YAML listings of a document.
use vstd::prelude::*;
use crate::value::{Value, ObjectMap, Model, key_lt, compare_keys, KeyOrder, models, lemma_models, lemma_key_lt_irreflexive};
use crate::text::{chars_of, push_str, push_chars, before_first, before_first_exec, int_text, push_i64, push_u64, nat_text, str_equal};
use crate::render::{escape_default_text, push_escape_default, display_text, push_display, bool_text};

verus! {

/// A configuration field: its dot path, type name, description, default and example texts,
/// and whether it is required or secret.
#[derive(Debug, Clone, Copy)]
pub struct FieldDef {
    pub path: &'static str,
    pub type_label: &'static str,
    pub description: &'static str,
    pub default: Option<&'static str>,
    pub example: Option<&'static str>,
    pub required: bool,
    pub secret: bool,
}

/// A configuration type that describes its fields and its default document.
pub trait CliSchema {
    fn fields() -> &'static [FieldDef];

    fn default_value() -> Value;
}

/// The section of a field path: the text before its first `.`.
pub open spec fn section_of(path: Seq<char>) -> Seq<char> {
    before_first(path, seq!['.'])
}

/// The index of the first section in `s` that is not below `x`.
pub open spec fn first_not_below(s: Seq<Seq<char>>, x: Seq<char>) -> int
    decreases s.len(),
{
    if s.len() == 0 {
        0
    } else if !key_lt(s[0], x) {
        0
    } else {
        first_not_below(s.drop_first(), x) + 1
    }
}

/// The ascending sections `s` with `x` added unless it is there already.
pub open spec fn insert_sorted(s: Seq<Seq<char>>, x: Seq<char>) -> Seq<Seq<char>> {
    let p = first_not_below(s, x);
    if p < s.len() && s[p] == x {
        s
    } else {
        s.insert(p, x)
    }
}

/// The distinct sections of the fields, in ascending order.
pub open spec fn sections(fields: Seq<FieldDef>) -> Seq<Seq<char>>
    decreases fields.len(),
{
    if fields.len() == 0 {
        Seq::empty()
    } else {
        insert_sorted(sections(fields.drop_last()), section_of(fields.last().path@))
    }
}

/// The key cell of a field's row: the path in backquotes, with a lock when secret.
pub open spec fn key_cell(f: FieldDef) -> Seq<char> {
    if f.secret {
        "`"@ + f.path@ + "` 🔒"@
    } else {
        "`"@ + f.path@ + "`"@
    }
}

/// The default cell of a field's row: the default, or a dash when there is none.
pub open spec fn default_cell(f: FieldDef) -> Seq<char> {
    match f.default {
        Some(d) => d@,
        None => "—"@,
    }
}

/// The description cell of a field's row, marked when the field is required.
pub open spec fn description_cell(f: FieldDef) -> Seq<char> {
    f.description@ + if f.required {
        " **Required**"@
    } else {
        Seq::empty()
    }
}

/// The markdown table row of a field.
pub open spec fn row_text(f: FieldDef) -> Seq<char> {
    "| "@ + key_cell(f) + " | `"@ + f.type_label@ + "` | `"@ + default_cell(f) + "` | "@ + description_cell(f) + " |\n"@
}

/// The rows of the fields in section `sec`, in the fields' order.
pub open spec fn section_rows(fields: Seq<FieldDef>, sec: Seq<char>) -> Seq<char>
    decreases fields.len(),
{
    if fields.len() == 0 {
        Seq::empty()
    } else {
        section_rows(fields.drop_last(), sec) + if section_of(fields.last().path@) == sec {
            row_text(fields.last())
        } else {
            Seq::empty()
        }
    }
}

/// The markdown of one section: a heading and a table of its fields.
pub open spec fn section_text(fields: Seq<FieldDef>, sec: Seq<char>) -> Seq<char> {
    "## "@ + sec + "\n\n"@ + "| Key | Type | Default | Description |\n"@ + "|-----|------|---------|-------------|\n"@
        + section_rows(fields, sec) + "\n"@
}

/// The markdown of the sections `secs`, in order.
pub open spec fn sections_text(fields: Seq<FieldDef>, secs: Seq<Seq<char>>) -> Seq<char>
    decreases secs.len(),
{
    if secs.len() == 0 {
        Seq::empty()
    } else {
        sections_text(fields, secs.drop_last()) + section_text(fields, secs.last())
    }
}

/// The markdown reference of the fields: a title, then one table per section in ascending
/// order of section names.
pub open spec fn doc_markdown(title: Seq<char>, fields: Seq<FieldDef>) -> Seq<char> {
    "# "@ + title + " Configuration Reference\n\n"@ + sections_text(fields, sections(fields))
}

/// The views of character vectors.
pub open spec fn char_views(v: Seq<Vec<char>>) -> Seq<Seq<char>> {
    Seq::new(v.len(), |i: int| v[i]@)
}

fn section_chars(path: &str) -> (r: Vec<char>)
    ensures
        r@ == section_of(path@),
{
    let c = chars_of(path);
    assert(['.']@ =~= seq!['.']);
    before_first_exec(c.as_slice(), &['.'])
}

pub proof fn lemma_first_not_below(s: Seq<Seq<char>>, x: Seq<char>)
    ensures
        0 <= first_not_below(s, x) <= s.len(),
        forall|j: int| 0 <= j < first_not_below(s, x) ==> key_lt(#[trigger] s[j], x),
        first_not_below(s, x) < s.len() ==> !key_lt(s[first_not_below(s, x)], x),
    decreases s.len(),
{
    if s.len() > 0 && key_lt(s[0], x) {
        lemma_first_not_below(s.drop_first(), x);
        assert forall|j: int| 0 <= j < first_not_below(s, x) implies key_lt(#[trigger] s[j], x) by {
            if j > 0 {
                assert(s[j] == s.drop_first()[j - 1]);
            }
        }
    }
}

/// Adds the section `x` to the ascending sections `secs` unless it is there already.
fn insert_section(secs: &mut Vec<Vec<char>>, x: Vec<char>)
    ensures
        char_views(final(secs)@) == insert_sorted(char_views(old(secs)@), x@),
{
    let ghost sv = char_views(secs@);
    proof {
        lemma_first_not_below(sv, x@);
    }
    let mut i: usize = 0;
    while i < secs.len()
        invariant
            i <= secs.len(),
            sv == char_views(secs@),
            sv == char_views(old(secs)@),
            sv.len() == secs.len(),
            forall|j: int| 0 <= j < i ==> key_lt(#[trigger] sv[j], x@),
            0 <= first_not_below(sv, x@) <= sv.len(),
            forall|j: int| 0 <= j < first_not_below(sv, x@) ==> key_lt(#[trigger] sv[j], x@),
            first_not_below(sv, x@) < sv.len() ==> !key_lt(sv[first_not_below(sv, x@)], x@),
        decreases secs.len() - i,
    {
        assert(sv[i as int] == secs@[i as int]@);
        match compare_keys(secs[i].as_slice(), x.as_slice()) {
            KeyOrder::Less => {},
            KeyOrder::Equal => {
                proof {
                    let p = first_not_below(sv, x@);
                    lemma_key_lt_irreflexive(x@);
                    if p < i {
                        assert(key_lt(sv[p], x@));
                    }
                    if (i as int) < p {
                        assert(key_lt(sv[i as int], x@));
                    }
                }
                return;
            },
            KeyOrder::Greater => {
                proof {
                    let p = first_not_below(sv, x@);
                    crate::value::lemma_key_lt_asymmetric(x@, sv[i as int]);
                    if p < i {
                        assert(key_lt(sv[p], x@));
                    }
                    if (i as int) < p {
                        assert(key_lt(sv[i as int], x@));
                    }
                }
                let ghost xv = x@;
                secs.insert(i, x);
                proof {
                    assert(char_views(secs@) =~= sv.insert(i as int, xv));
                }
                return;
            },
        }
        i = i + 1;
    }
    let ghost xv = x@;
    secs.push(x);
    proof {
        assert(char_views(secs@) =~= sv.insert(sv.len() as int, xv));
    }
}

/// Appends the table row of a field.
fn push_row(out: &mut String, f: &FieldDef)
    ensures
        final(out)@ == old(out)@ + row_text(*f),
{
    let ghost start = out@;
    push_str(out, "| ");
    let ghost a = out@;
    push_str(out, "`");
    push_str(out, f.path);
    if f.secret {
        push_str(out, "` 🔒");
    } else {
        push_str(out, "`");
    }
    assert(out@ =~= a + key_cell(*f));
    push_str(out, " | `");
    push_str(out, f.type_label);
    push_str(out, "` | `");
    let ghost b = out@;
    match f.default {
        Some(d) => push_str(out, d),
        None => push_str(out, "—"),
    }
    assert(out@ =~= b + default_cell(*f));
    push_str(out, "` | ");
    let ghost c = out@;
    push_str(out, f.description);
    if f.required {
        push_str(out, " **Required**");
    }
    assert(out@ =~= c + description_cell(*f));
    push_str(out, " |\n");
    assert(out@ =~= start + row_text(*f));
}

/// Appends the markdown of section `sec`.
fn push_section(out: &mut String, fields: &[FieldDef], sec: &Vec<char>)
    ensures
        final(out)@ == old(out)@ + section_text(fields@, sec@),
{
    let ghost start = out@;
    push_str(out, "## ");
    push_chars(out, sec.as_slice());
    push_str(out, "\n\n");
    push_str(out, "| Key | Type | Default | Description |\n");
    push_str(out, "|-----|------|---------|-------------|\n");
    let ghost head = out@;
    let mut i: usize = 0;
    assert(fields@.take(0) =~= Seq::<FieldDef>::empty());
    assert(head + section_rows(fields@.take(0), sec@) =~= head);
    while i < fields.len()
        invariant
            i <= fields.len(),
            out@ == head + section_rows(fields@.take(i as int), sec@),
        decreases fields.len() - i,
    {
        let f = &fields[i];
        let s = section_chars(f.path);
        assert(fields@.take(i + 1).drop_last() =~= fields@.take(i as int));
        if crate::text::chars_equal(s.as_slice(), sec.as_slice()) {
            push_row(out, f);
        }
        proof {
            let r = section_rows(fields@.take(i as int), sec@);
            let t = if section_of(fields@[i as int].path@) == sec@ {
                row_text(fields@[i as int])
            } else {
                Seq::empty()
            };
            assert(head + r + t =~= head + (r + t));
        }
        i = i + 1;
    }
    assert(fields@.take(fields.len() as int) =~= fields@);
    push_str(out, "\n");
    assert(out@ =~= start + section_text(fields@, sec@));
}

/// Renders the fields as a markdown reference: a title, then one table per section (the
/// text of a path before its first `.`), sections in ascending order and fields in their
/// given order within a section.
pub fn render_doc_markdown(title: &str, fields: &[FieldDef]) -> (r: String)
    ensures
        r@ == doc_markdown(title@, fields@),
{
    let mut secs: Vec<Vec<char>> = Vec::new();
    let mut i: usize = 0;
    assert(fields@.take(0) =~= Seq::<FieldDef>::empty());
    assert(char_views(secs@) =~= Seq::<Seq<char>>::empty());
    while i < fields.len()
        invariant
            i <= fields.len(),
            char_views(secs@) == sections(fields@.take(i as int)),
        decreases fields.len() - i,
    {
        let s = section_chars(fields[i].path);
        insert_section(&mut secs, s);
        assert(fields@.take(i + 1).drop_last() =~= fields@.take(i as int));
        i = i + 1;
    }
    assert(fields@.take(fields.len() as int) =~= fields@);
    let ghost sv = char_views(secs@);
    let mut out = String::new();
    push_str(&mut out, "# ");
    push_str(&mut out, title);
    push_str(&mut out, " Configuration Reference\n\n");
    let ghost head = out@;
    let mut k: usize = 0;
    assert(sv.take(0) =~= Seq::<Seq<char>>::empty());
    assert(head + sections_text(fields@, sv.take(0)) =~= head);
    while k < secs.len()
        invariant
            k <= secs.len(),
            sv == char_views(secs@),
            sv.len() == secs.len(),
            out@ == head + sections_text(fields@, sv.take(k as int)),
        decreases secs.len() - k,
    {
        push_section(&mut out, fields, &secs[k]);
        proof {
            assert(sv.take(k + 1).drop_last() =~= sv.take(k as int));
            assert(sv[k as int] == secs@[k as int]@);
            let a = sections_text(fields@, sv.take(k as int));
            assert(head + a + section_text(fields@, sv[k as int]) =~= head + (a + section_text(fields@, sv[k as int])));
        }
        k = k + 1;
    }
    assert(sv.take(secs.len() as int) =~= sv);
    assert(out@ =~= doc_markdown(title@, fields@));
    out
}

/// The field documented for the path `p`: the last of the fields with that path.
pub open spec fn field_for(fields: Seq<FieldDef>, p: Seq<char>) -> Option<FieldDef>
    decreases fields.len(),
{
    if fields.len() == 0 {
        None
    } else if fields.last().path@ == p {
        Some(fields.last())
    } else {
        field_for(fields.drop_last(), p)
    }
}

/// The field documented for the path `p`.
fn find_field(fields: &[FieldDef], p: &[char]) -> (r: Option<FieldDef>)
    ensures
        r == field_for(fields@, p@),
{
    let mut found: Option<FieldDef> = None;
    let mut i: usize = 0;
    assert(fields@.take(0) =~= Seq::<FieldDef>::empty());
    while i < fields.len()
        invariant
            i <= fields.len(),
            found == field_for(fields@.take(i as int), p@),
        decreases fields.len() - i,
    {
        let f = fields[i];
        let c = chars_of(f.path);
        assert(fields@.take(i + 1).drop_last() =~= fields@.take(i as int));
        if crate::text::chars_equal(c.as_slice(), p) {
            found = Some(f);
        }
        i = i + 1;
    }
    assert(fields@.take(fields.len() as int) =~= fields@);
    found
}

/// A string in double quotes, escaped with `escape_default`.
pub open spec fn quoted(s: Seq<char>) -> Seq<char> {
    "\""@ + escape_default_text(s) + "\""@
}

fn push_quoted(out: &mut String, s: &str)
    ensures
        final(out)@ == old(out)@ + quoted(s@),
{
    let ghost start = out@;
    push_str(out, "\"");
    push_escape_default(out, s);
    push_str(out, "\"");
    assert(out@ =~= start + quoted(s@));
}

/// An array element in the TOML listing: strings and integers are shown, others are not.
pub open spec fn toml_item(m: Model) -> Seq<char> {
    match m {
        Model::Str(s) => quoted(s),
        Model::Integer(i) => int_text(i as int),
        Model::Unsigned(u) => nat_text(u as nat),
        _ => Seq::empty(),
    }
}

/// The array elements in the TOML listing, separated by ", ".
pub open spec fn toml_items(a: Seq<Model>) -> Seq<char>
    decreases a.len(),
{
    if a.len() == 0 {
        Seq::empty()
    } else if a.len() == 1 {
        toml_item(a[0])
    } else {
        toml_items(a.drop_last()) + ", "@ + toml_item(a.last())
    }
}

/// A value in the TOML listing; a nested object is left empty.
pub open spec fn toml_value(m: Model) -> Seq<char> {
    match m {
        Model::Str(s) => quoted(s),
        Model::Integer(i) => int_text(i as int),
        Model::Unsigned(u) => nat_text(u as nat),
        Model::Float(t) => t,
        Model::Bool(b) => bool_text(b),
        Model::Null => "null"@,
        Model::Array(a) => "["@ + toml_items(a) + "]"@,
        Model::Object(_) => Seq::empty(),
    }
}

/// The comment lines of a documented field in the TOML listing.
pub open spec fn toml_comments(f: Option<FieldDef>) -> Seq<char> {
    match f {
        Some(fd) => "# "@ + fd.description@ + "\n"@ + match fd.default {
            Some(d) => "# Type: "@ + fd.type_label@ + " | Default: "@ + d@ + "\n"@,
            None => Seq::empty(),
        },
        None => Seq::empty(),
    }
}

/// One top-level entry in the TOML listing, followed by a blank line when documented.
pub open spec fn toml_entry(k: Seq<char>, v: Model, fields: Seq<FieldDef>) -> Seq<char> {
    toml_comments(field_for(fields, k)) + k + " = "@ + toml_value(v) + "\n"@ + if field_for(fields, k) is Some {
        "\n"@
    } else {
        Seq::empty()
    }
}

/// The entries in the TOML listing, in order.
pub open spec fn toml_entries(e: Seq<(Seq<char>, Model)>, fields: Seq<FieldDef>) -> Seq<char>
    decreases e.len(),
{
    if e.len() == 0 {
        Seq::empty()
    } else {
        toml_entries(e.drop_last(), fields) + toml_entry(e.last().0, e.last().1, fields)
    }
}

/// The annotated TOML listing of a document: its top-level entries as `key = value` lines,
/// each documented field preceded by its description and, when it has a default, its type
/// and default. Anything but an object lists nothing.
pub open spec fn annotated_toml(m: Model, fields: Seq<FieldDef>) -> Seq<char> {
    match m {
        Model::Object(e) => toml_entries(e, fields),
        _ => Seq::empty(),
    }
}

fn push_toml_item(out: &mut String, v: &Value)
    ensures
        final(out)@ == old(out)@ + toml_item(v.model()),
{
    match v {
        Value::String(s) => push_quoted(out, s.as_str()),
        Value::Integer(i) => push_i64(out, *i),
        Value::Unsigned(u) => push_u64(out, *u),
        _ => {
            assert(old(out)@ + Seq::<char>::empty() =~= old(out)@);
        },
    }
}

fn push_toml_value(out: &mut String, v: &Value)
    ensures
        final(out)@ == old(out)@ + toml_value(v.model()),
{
    let ghost start = out@;
    match v {
        Value::String(s) => push_quoted(out, s.as_str()),
        Value::Integer(i) => push_i64(out, *i),
        Value::Unsigned(u) => push_u64(out, *u),
        Value::Float(t) => push_str(out, t.as_str()),
        Value::Bool(b) => {
            if *b {
                push_str(out, "true");
            } else {
                push_str(out, "false");
            }
        },
        Value::Null => push_str(out, "null"),
        Value::Array(a) => {
            push_str(out, "[");
            let ghost head = out@;
            proof {
                lemma_models(a@);
            }
            let ghost ms = models(a@);
            let mut i: usize = 0;
            assert(ms.take(0) =~= Seq::<Model>::empty());
            assert(head + toml_items(ms.take(0)) =~= head);
            while i < a.len()
                invariant
                    i <= a.len(),
                    ms == models(a@),
                    ms.len() == a.len(),
                    forall|j: int| 0 <= j < a.len() ==> #[trigger] ms[j] == a@[j].model(),
                    out@ == head + toml_items(ms.take(i as int)),
                decreases a.len() - i,
            {
                let ghost before = out@;
                if i > 0 {
                    push_str(out, ", ");
                }
                push_toml_item(out, &a[i]);
                proof {
                    assert(ms.take(i + 1).drop_last() =~= ms.take(i as int));
                    assert(ms.take(i + 1).last() == a@[i as int].model());
                    if i == 0 {
                        assert(ms.take(1)[0] == a@[0].model());
                        assert(out@ =~= head + toml_items(ms.take(1)));
                    } else {
                        assert(out@ =~= head + toml_items(ms.take(i + 1)));
                    }
                }
                i = i + 1;
            }
            assert(ms.take(a.len() as int) =~= ms);
            push_str(out, "]");
            assert(out@ =~= start + toml_value(v.model()));
        },
        Value::Object(_) => {
            assert(out@ =~= start + toml_value(v.model()));
        },
    }
}

/// Renders the top-level entries of a document as annotated TOML (see `annotated_toml`).
pub fn render_annotated_toml(value: &Value, fields: &[FieldDef]) -> (r: String)
    ensures
        r@ == annotated_toml(value.model(), fields@),
{
    let mut out = String::new();
    if let Value::Object(m) = value {
        let mut i: usize = 0;
        assert(m@.take(0) =~= Seq::<(Seq<char>, Model)>::empty());
        while i < m.len()
            invariant
                i <= m@.len(),
                out@ == toml_entries(m@.take(i as int), fields@),
            decreases m@.len() - i,
        {
            let key = m.key_at(i);
            let kc = chars_of(key.as_str());
            let f = find_field(fields, kc.as_slice());
            let ghost before = out@;
            match f {
                Some(fd) => {
                    push_str(&mut out, "# ");
                    push_str(&mut out, fd.description);
                    push_str(&mut out, "\n");
                    match fd.default {
                        Some(d) => {
                            push_str(&mut out, "# Type: ");
                            push_str(&mut out, fd.type_label);
                            push_str(&mut out, " | Default: ");
                            push_str(&mut out, d);
                            push_str(&mut out, "\n");
                        },
                        None => {},
                    }
                },
                None => {},
            }
            assert(out@ =~= before + toml_comments(field_for(fields@, key@)));
            push_str(&mut out, key.as_str());
            push_str(&mut out, " = ");
            push_toml_value(&mut out, m.value_at(i));
            push_str(&mut out, "\n");
            if f.is_some() {
                push_str(&mut out, "\n");
            }
            proof {
                assert(m@.take(i + 1).drop_last() =~= m@.take(i as int));
                assert(m@.take(i + 1).last() == m@[i as int]);
                assert(out@ =~= before + toml_entry(m@[i as int].0, m@[i as int].1, fields@));
            }
            i = i + 1;
        }
        assert(m@.take(m@.len() as int) =~= m@);
    }
    out
}

/// The path of a key below `path`: the key alone at the top, else joined with a `.`.
pub open spec fn child_path(path: Seq<char>, key: Seq<char>) -> Seq<char> {
    if path.len() == 0 {
        key
    } else {
        path + "."@ + key
    }
}

/// The comment lines of a documented field in the YAML listing, indented by `ind`.
pub open spec fn yaml_comments(f: Option<FieldDef>, ind: Seq<char>) -> Seq<char> {
    match f {
        Some(fd) => ind + "# "@ + fd.description@ + "\n"@ + match fd.default {
            Some(d) => ind + "# Default: "@ + d@ + "\n"@,
            None => Seq::empty(),
        },
        None => Seq::empty(),
    }
}

/// An array element line in the YAML listing: a string quoted, anything else in its
/// `Display` form.
pub open spec fn yaml_item(m: Model, ind: Seq<char>) -> Seq<char> {
    ind + "  - "@ + match m {
        Model::Str(s) => quoted(s),
        _ => display_text(m),
    } + "\n"@
}

/// The array element lines in the YAML listing.
pub open spec fn yaml_items(a: Seq<Model>, ind: Seq<char>) -> Seq<char>
    decreases a.len(),
{
    if a.len() == 0 {
        Seq::empty()
    } else {
        yaml_items(a.drop_last(), ind) + yaml_item(a.last(), ind)
    }
}

/// A value other than an object in the YAML listing.
pub open spec fn yaml_scalar(m: Model, ind: Seq<char>) -> Seq<char> {
    match m {
        Model::Str(s) => quoted(s),
        Model::Integer(i) => int_text(i as int),
        Model::Unsigned(u) => nat_text(u as nat),
        Model::Float(t) => t,
        Model::Bool(b) => bool_text(b),
        Model::Null => "null"@,
        Model::Array(a) => "[\n"@ + yaml_items(a, ind) + ind + "]"@,
        Model::Object(_) => Seq::empty(),
    }
}

/// The entries of an object at `path` in the YAML listing, indented by `ind`, in order.
pub open spec fn yaml_entries(e: Seq<(Seq<char>, Model)>, fields: Seq<FieldDef>, path: Seq<char>, ind: Seq<char>) -> Seq<char>
    decreases e, 1nat,
{
    if e.len() == 0 {
        Seq::empty()
    } else {
        yaml_entries(e.drop_last(), fields, path, ind) + yaml_entry(e.last().0, e.last().1, fields, path, ind)
    }
}

/// One entry of an object at `path` in the YAML listing, indented by `ind`: a documented
/// field is preceded by its description and default, then comes `key: value`; a nested
/// object follows its key on the next lines, indented two spaces more.
pub open spec fn yaml_entry(k: Seq<char>, v: Model, fields: Seq<FieldDef>, path: Seq<char>, ind: Seq<char>) -> Seq<char>
    decreases v, 0nat,
{
    let cp = child_path(path, k);
    yaml_comments(field_for(fields, cp), ind) + ind + k + ": "@ + match v {
        Model::Object(ce) => "\n"@ + yaml_entries(ce, fields, cp, ind + "  "@),
        _ => yaml_scalar(v, ind) + "\n"@,
    }
}

/// The annotated YAML listing of a document (see `yaml_entries`); anything but an object
/// lists nothing.
pub open spec fn annotated_yaml(m: Model, fields: Seq<FieldDef>) -> Seq<char> {
    match m {
        Model::Object(e) => yaml_entries(e, fields, Seq::empty(), Seq::empty()),
        _ => Seq::empty(),
    }
}

fn push_yaml_scalar(out: &mut String, v: &Value, ind: &str)
    ensures
        final(out)@ == old(out)@ + yaml_scalar(v.model(), ind@),
{
    let ghost start = out@;
    match v {
        Value::String(s) => push_quoted(out, s.as_str()),
        Value::Integer(i) => push_i64(out, *i),
        Value::Unsigned(u) => push_u64(out, *u),
        Value::Float(t) => push_str(out, t.as_str()),
        Value::Bool(b) => {
            if *b {
                push_str(out, "true");
            } else {
                push_str(out, "false");
            }
        },
        Value::Null => push_str(out, "null"),
        Value::Array(a) => {
            push_str(out, "[\n");
            let ghost head = out@;
            proof {
                lemma_models(a@);
            }
            let ghost ms = models(a@);
            let mut i: usize = 0;
            assert(ms.take(0) =~= Seq::<Model>::empty());
            assert(head + yaml_items(ms.take(0), ind@) =~= head);
            while i < a.len()
                invariant
                    i <= a.len(),
                    ms == models(a@),
                    ms.len() == a.len(),
                    forall|j: int| 0 <= j < a.len() ==> #[trigger] ms[j] == a@[j].model(),
                    out@ == head + yaml_items(ms.take(i as int), ind@),
                decreases a.len() - i,
            {
                let ghost before = out@;
                push_str(out, ind);
                push_str(out, "  - ");
                let elem = &a[i];
                match elem {
                    Value::String(s) => push_quoted(out, s.as_str()),
                    _ => push_display(out, elem),
                }
                push_str(out, "\n");
                proof {
                    assert(ms.take(i + 1).drop_last() =~= ms.take(i as int));
                    assert(ms.take(i + 1).last() == a@[i as int].model());
                    assert(out@ =~= before + yaml_item(a@[i as int].model(), ind@));
                    assert(out@ =~= head + yaml_items(ms.take(i + 1), ind@));
                }
                i = i + 1;
            }
            assert(ms.take(a.len() as int) =~= ms);
            push_str(out, ind);
            push_str(out, "]");
            assert(out@ =~= start + yaml_scalar(v.model(), ind@));
        },
        Value::Object(_) => {
            assert(out@ =~= start + yaml_scalar(v.model(), ind@));
        },
    }
}

/// Appends the YAML listing of the entries of `m`, found at `path` and indented by `ind`.
fn push_yaml_entries(out: &mut String, m: &ObjectMap, fields: &[FieldDef], path: &str, ind: &str)
    ensures
        final(out)@ == old(out)@ + yaml_entries(m@, fields@, path@, ind@),
    decreases m, 1nat,
{
    let ghost start = out@;
    let mut i: usize = 0;
    assert(m@.take(0) =~= Seq::<(Seq<char>, Model)>::empty());
    assert(start + yaml_entries(m@.take(0), fields@, path@, ind@) =~= start);
    while i < m.len()
        invariant
            i <= m@.len(),
            out@ == start + yaml_entries(m@.take(i as int), fields@, path@, ind@),
        decreases m@.len() - i,
    {
        let key = m.key_at(i);
        let child = m.value_at(i);
        let ghost before = out@;
        push_yaml_entry(out, key.as_str(), child, fields, path, ind);
        proof {
            assert(m@.take(i + 1).drop_last() =~= m@.take(i as int));
            assert(m@.take(i + 1).last() == m@[i as int]);
            let a = yaml_entries(m@.take(i as int), fields@, path@, ind@);
            let b = yaml_entry(key@, child.model(), fields@, path@, ind@);
            assert(start + a + b =~= start + (a + b));
        }
        i = i + 1;
    }
    assert(m@.take(m@.len() as int) =~= m@);
}

/// The path of `key` below `path`.
fn child_path_string(path: &str, key: &str) -> (r: String)
    ensures
        r@ == child_path(path@, key@),
{
    let mut cp = String::new();
    if !path.is_empty() {
        push_str(&mut cp, path);
        push_str(&mut cp, ".");
    }
    push_str(&mut cp, key);
    assert(cp@ =~= child_path(path@, key@));
    cp
}

/// Appends the YAML comment lines of a documented field.
fn push_yaml_comments(out: &mut String, f: Option<FieldDef>, ind: &str)
    ensures
        final(out)@ == old(out)@ + yaml_comments(f, ind@),
{
    let ghost start = out@;
    match f {
        Some(fd) => {
            push_str(out, ind);
            push_str(out, "# ");
            push_str(out, fd.description);
            push_str(out, "\n");
            match fd.default {
                Some(d) => {
                    push_str(out, ind);
                    push_str(out, "# Default: ");
                    push_str(out, d);
                    push_str(out, "\n");
                },
                None => {},
            }
        },
        None => {},
    }
    assert(out@ =~= start + yaml_comments(f, ind@));
}

/// Appends the YAML listing of the entry `key: v` of an object at `path`.
fn push_yaml_entry(out: &mut String, key: &str, v: &Value, fields: &[FieldDef], path: &str, ind: &str)
    ensures
        final(out)@ == old(out)@ + yaml_entry(key@, v.model(), fields@, path@, ind@),
    decreases v, 0nat,
{
    let ghost start = out@;
    let cp = child_path_string(path, key);
    let cpc = chars_of(cp.as_str());
    let f = find_field(fields, cpc.as_slice());
    push_yaml_comments(out, f, ind);
    let ghost c = out@;
    push_str(out, ind);
    push_str(out, key);
    push_str(out, ": ");
    let ghost mid = out@;
    match v {
        Value::Object(cm) => {
            push_str(out, "\n");
            let mut ind2 = String::new();
            push_str(&mut ind2, ind);
            push_str(&mut ind2, "  ");
            assert(ind2@ =~= ind@ + "  "@);
            push_yaml_entries(out, cm, fields, cp.as_str(), ind2.as_str());
        },
        _ => {
            push_yaml_scalar(out, v, ind);
            push_str(out, "\n");
        },
    }
    proof {
        let tail = match v.model() {
            Model::Object(ce) => "\n"@ + yaml_entries(ce, fields@, cp@, ind@ + "  "@),
            _ => yaml_scalar(v.model(), ind@) + "\n"@,
        };
        assert(out@ =~= mid + tail);
        assert(out@ =~= start + yaml_entry(key@, v.model(), fields@, path@, ind@));
    }
}

/// Renders a document as annotated YAML (see `annotated_yaml`).
pub fn render_annotated_yaml(value: &Value, fields: &[FieldDef]) -> (r: String)
    ensures
        r@ == annotated_yaml(value.model(), fields@),
{
    let mut out = String::new();
    if let Value::Object(m) = value {
        let top = String::new();
        push_yaml_entries(&mut out, m, fields, top.as_str(), top.as_str());
        assert(Seq::<char>::empty() + yaml_entries(m@, fields@, top@, top@) =~= annotated_yaml(value.model(), fields@));
    }
    out
}

} // verus!
