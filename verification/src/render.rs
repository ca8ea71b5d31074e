//! Text renderings of values: the `Debug` form used in error messages, the `Display` form,
//! and the `escape_default` form of strings.
use vstd::prelude::*;
use crate::text::{int_text, push_chars, push_i64, push_u64, nat_text, push_str, chars_of, copy_string};
use crate::value::{Value, ObjectMap, Model, models, lemma_models};

verus! {

/// What `format!("{:?}", s)` gives for a string slice with characters `s`.
pub uninterp spec fn debug_str(s: Seq<char>) -> Seq<char>;

/// Calls `<str as Debug>::fmt` through `format!`; the result is named `debug_str`.
#[verifier::external_body]
fn debug_escape(s: &str) -> (r: String)
    ensures
        r@ == debug_str(s@),
{
    format!("{:?}", s)
}

pub open spec fn bool_text(b: bool) -> Seq<char> {
    if b {
        "true"@
    } else {
        "false"@
    }
}

/// The `Debug` rendering of a value: variant names with their contents, objects as
/// `{"key": value, ...}`.
pub open spec fn debug_text(m: Model) -> Seq<char>
    decreases m, 0nat,
{
    match m {
        Model::Null => "Null"@,
        Model::Bool(b) => "Bool("@ + bool_text(b) + ")"@,
        Model::Integer(i) => "Integer("@ + int_text(i as int) + ")"@,
        Model::Unsigned(u) => "Unsigned("@ + nat_text(u as nat) + ")"@,
        Model::Float(t) => "Float("@ + t + ")"@,
        Model::Str(s) => "String("@ + debug_str(s) + ")"@,
        Model::Array(a) => "Array(["@ + debug_items(a) + "])"@,
        Model::Object(e) => "Object({"@ + debug_entries(e) + "})"@,
    }
}

/// The `Debug` renderings of `s`, separated by ", ".
pub open spec fn debug_items(s: Seq<Model>) -> Seq<char>
    decreases s, 1nat,
{
    if s.len() == 0 {
        Seq::empty()
    } else if s.len() == 1 {
        debug_text(s[0])
    } else {
        debug_items(s.drop_last()) + ", "@ + debug_text(s.last())
    }
}

/// The `Debug` renderings of map entries as `"key": value`, separated by ", ".
pub open spec fn debug_entries(s: Seq<(Seq<char>, Model)>) -> Seq<char>
    decreases s, 1nat,
{
    if s.len() == 0 {
        Seq::empty()
    } else if s.len() == 1 {
        debug_str(s[0].0) + ": "@ + debug_text(s[0].1)
    } else {
        debug_entries(s.drop_last()) + ", "@ + debug_str(s.last().0) + ": "@ + debug_text(s.last().1)
    }
}

/// Appends the `Debug` rendering of `v` to `out`.
pub fn push_debug(out: &mut String, v: &Value)
    ensures
        final(out)@ == old(out)@ + debug_text(v.model()),
    decreases v, 0nat,
{
    match v {
        Value::Null => push_str(out, "Null"),
        Value::Bool(b) => {
            push_str(out, "Bool(");
            if *b {
                push_str(out, "true");
            } else {
                push_str(out, "false");
            }
            push_str(out, ")");
        },
        Value::Integer(i) => {
            push_str(out, "Integer(");
            push_i64(out, *i);
            push_str(out, ")");
        },
        Value::Unsigned(u) => {
            push_str(out, "Unsigned(");
            push_u64(out, *u);
            push_str(out, ")");
        },
        Value::Float(t) => {
            push_str(out, "Float(");
            push_str(out, t.as_str());
            push_str(out, ")");
        },
        Value::String(t) => {
            push_str(out, "String(");
            let d = debug_escape(t.as_str());
            push_str(out, d.as_str());
            push_str(out, ")");
        },
        Value::Array(a) => {
            push_str(out, "Array([");
            push_debug_items(out, a);
            push_str(out, "])");
        },
        Value::Object(m) => {
            push_str(out, "Object({");
            push_debug_entries(out, m);
            push_str(out, "})");
        },
    }
}

fn push_debug_items(out: &mut String, a: &Vec<Value>)
    ensures
        final(out)@ == old(out)@ + debug_items(models(a@)),
    decreases a, 1nat,
{
    let ghost start = out@;
    proof {
        lemma_models(a@);
        assert(debug_items(models(a@).take(0)) =~= Seq::<char>::empty());
        assert(start + Seq::<char>::empty() =~= start);
    }
    let mut i: usize = 0;
    while i < a.len()
        invariant
            i <= a.len(),
            models(a@).len() == a@.len(),
            forall|j: int| 0 <= j < a@.len() ==> #[trigger] models(a@)[j] == a@[j].model(),
            out@ == start + debug_items(models(a@).take(i as int)),
        decreases a.len() - i,
    {
        proof {
            assert(decreases_to!(a => a[i as int]));
            assert(models(a@).take(i + 1).drop_last() =~= models(a@).take(i as int));
            assert(models(a@).take(i + 1).last() == a@[i as int].model());
        }
        if i > 0 {
            push_str(out, ", ");
        }
        push_debug(out, &a[i]);
        proof {
            if i == 0 {
                assert(models(a@).take(1)[0] == a@[0].model());
            }
        }
        i = i + 1;
    }
    assert(models(a@).take(a.len() as int) =~= models(a@));
}

fn push_debug_entries(out: &mut String, m: &ObjectMap)
    ensures
        final(out)@ == old(out)@ + debug_entries(m@),
    decreases m, 1nat,
{
    let ghost start = out@;
    proof {
        assert(debug_entries(m@.take(0)) =~= Seq::<char>::empty());
        assert(start + Seq::<char>::empty() =~= start);
    }
    let mut i: usize = 0;
    while i < m.len()
        invariant
            i <= m@.len(),
            out@ == start + debug_entries(m@.take(i as int)),
        decreases m@.len() - i,
    {
        proof {
            assert(m@.take(i + 1).drop_last() =~= m@.take(i as int));
            assert(m@.take(i + 1).last() == m@[i as int]);
        }
        if i > 0 {
            push_str(out, ", ");
        }
        let k = debug_escape(m.key_at(i).as_str());
        push_str(out, k.as_str());
        push_str(out, ": ");
        let child = m.value_at(i);
        push_debug(out, child);
        proof {
            if i == 0 {
                assert(m@.take(1)[0] == m@[0]);
            }
        }
        i = i + 1;
    }
    assert(m@.take(m@.len() as int) =~= m@);
}

/// The `Debug` rendering of `v`.
pub fn debug_string(v: &Value) -> (r: String)
    ensures
        r@ == debug_text(v.model()),
{
    let mut s = String::new();
    push_debug(&mut s, v);
    assert(Seq::<char>::empty() + debug_text(v.model()) =~= debug_text(v.model()));
    s
}

/// A lowercase hexadecimal digit.
pub open spec fn hex_digit(d: nat) -> char {
    if d < 10 {
        ((d + 48) as u8) as char
    } else {
        ((d + 87) as u8) as char
    }
}

/// The lowercase hexadecimal text of a natural number, without leading zeros.
pub open spec fn hex_text(n: nat) -> Seq<char>
    decreases n,
{
    if n < 16 {
        seq![hex_digit(n)]
    } else {
        hex_text(n / 16).push(hex_digit(n % 16))
    }
}

/// What `char::escape_default` gives: tab, carriage return and line feed as `\t`, `\r`,
/// `\n`; backslash and both quotes behind a backslash; other printable ASCII as itself;
/// anything else as `\u{..}` with the code point in lowercase hexadecimal.
pub open spec fn escape_default_char(c: char) -> Seq<char> {
    if c == '\t' {
        seq!['\\', 't']
    } else if c == '\r' {
        seq!['\\', 'r']
    } else if c == '\n' {
        seq!['\\', 'n']
    } else if c == '\\' || c == '\'' || c == '"' {
        seq!['\\', c]
    } else if ' ' <= c && c <= '~' {
        seq![c]
    } else {
        seq!['\\', 'u', '{'] + hex_text(c as nat) + seq!['}']
    }
}

/// What `str::escape_default` gives: each character escaped by `char::escape_default`.
pub open spec fn escape_default_text(s: Seq<char>) -> Seq<char>
    decreases s.len(),
{
    if s.len() == 0 {
        Seq::empty()
    } else {
        escape_default_text(s.drop_last()) + escape_default_char(s.last())
    }
}

fn push_hex(out: &mut String, n: u32)
    ensures
        final(out)@ == old(out)@ + hex_text(n as nat),
    decreases n,
{
    if n >= 16 {
        push_hex(out, n / 16);
    }
    let d = n % 16;
    let c: char = if d < 10 {
        ((d as u8) + 48) as char
    } else {
        ((d as u8) + 87) as char
    };
    out.push(c);
    proof {
        if n >= 16 {
            assert(hex_text(n as nat) == hex_text((n / 16) as nat).push(hex_digit((n % 16) as nat)));
        } else {
            assert(hex_text(n as nat) == seq![hex_digit(n as nat)]);
        }
    }
}

/// Appends `escape_default_char(c)` to `out`.
fn push_escaped_char(out: &mut String, c: char)
    ensures
        final(out)@ == old(out)@ + escape_default_char(c),
{
    let ghost start = out@;
    if c == '\t' {
        out.push('\\');
        out.push('t');
    } else if c == '\r' {
        out.push('\\');
        out.push('r');
    } else if c == '\n' {
        out.push('\\');
        out.push('n');
    } else if c == '\\' || c == '\'' || c == '"' {
        out.push('\\');
        out.push(c);
    } else if ' ' <= c && c <= '~' {
        out.push(c);
    } else {
        out.push('\\');
        out.push('u');
        out.push('{');
        let ghost mid = out@;
        push_hex(out, c as u32);
        out.push('}');
        assert(out@ =~= start + (seq!['\\', 'u', '{'] + hex_text(c as nat) + seq!['}']));
    }
    assert(out@ =~= start + escape_default_char(c));
}

/// Appends `escape_default_text(s)` to `out`.
pub fn push_escape_default(out: &mut String, s: &str)
    ensures
        final(out)@ == old(out)@ + escape_default_text(s@),
{
    let c = chars_of(s);
    let ghost start = out@;
    let mut i: usize = 0;
    assert(c@.take(0) =~= Seq::<char>::empty());
    assert(start + Seq::<char>::empty() =~= start);
    while i < c.len()
        invariant
            i <= c.len(),
            c@ == s@,
            out@ == start + escape_default_text(c@.take(i as int)),
        decreases c.len() - i,
    {
        push_escaped_char(out, c[i]);
        assert(c@.take(i + 1).drop_last() =~= c@.take(i as int));
        i = i + 1;
    }
    assert(c@.take(c.len() as int) =~= c@);
}

/// The `Display` rendering of a value: `null`, a bool or integer as text, a float as its
/// text, a string quoted with `escape_default`, and `[...]` or `{...}` for containers.
pub open spec fn display_text(m: Model) -> Seq<char> {
    match m {
        Model::Null => "null"@,
        Model::Bool(b) => bool_text(b),
        Model::Integer(i) => int_text(i as int),
        Model::Unsigned(u) => nat_text(u as nat),
        Model::Float(t) => t,
        Model::Str(s) => "\""@ + escape_default_text(s) + "\""@,
        Model::Array(_) => "[...]"@,
        Model::Object(_) => "{...}"@,
    }
}

/// Appends `display_text(v.model())` to `out`.
pub fn push_display(out: &mut String, v: &Value)
    ensures
        final(out)@ == old(out)@ + display_text(v.model()),
{
    match v {
        Value::Null => push_str(out, "null"),
        Value::Bool(b) => {
            if *b {
                push_str(out, "true");
            } else {
                push_str(out, "false");
            }
        },
        Value::Integer(i) => push_i64(out, *i),
        Value::Unsigned(u) => push_u64(out, *u),
        Value::Float(t) => push_str(out, t.as_str()),
        Value::String(t) => {
            let ghost start = out@;
            push_str(out, "\"");
            push_escape_default(out, t.as_str());
            push_str(out, "\"");
            assert(out@ =~= start + ("\""@ + escape_default_text(t@) + "\""@));
        },
        Value::Array(_) => push_str(out, "[...]"),
        Value::Object(_) => push_str(out, "{...}"),
    }
}

impl Value {
    /// The `Display` rendering of this value (see `display_text`).
    pub fn display_string(&self) -> (r: String)
        ensures
            r@ == display_text(self.model()),
    {
        let mut s = String::new();
        push_display(&mut s, self);
        assert(Seq::<char>::empty() + display_text(self.model()) =~= display_text(self.model()));
        s
    }
}

} // verus!
