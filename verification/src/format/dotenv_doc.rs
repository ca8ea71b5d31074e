//! Dotenv documents: `KEY=value` assignments, one per line, read as strings.
//!
//! Blank lines and lines starting with `#` are skipped; an assignment may start with
//! `export`; blanks around the key, the `=` and an unquoted value are dropped. An unquoted
//! value runs to the end of its line, where a `#` after a blank starts a comment. A
//! single-quoted value is literal; a double-quoted value knows the escapes `\n`, `\t`,
//! `\r`, `\"`, `\\` and `\$`. Quoted values may span lines, and only blanks or a comment may
//! follow them. Keys are made of ASCII letters, digits, `_`, `.` and `-`, and a key may be
//! assigned once. Nothing is expanded: `${X}` stays as it is written.
use vstd::prelude::*;
use crate::value::{Value, ObjectMap, Model, obj_get, obj_insert, lemma_obj_find};
use crate::error::{ConfigError, ConfigResult, ErrorModel};
use crate::text::{string_of, owned, chars_of};
use crate::format::scan::{
    find_char, lemma_find_char, find_char_exec, line_end, is_hws, skip_hws, lemma_skip_hws, skip_hws_exec,
    line_of, line_message, line_message_at, sub_chars,
};

verus! {

/// A character that a key may hold.
pub open spec fn is_key_char(c: char) -> bool {
    ('a' <= c && c <= 'z') || ('A' <= c && c <= 'Z') || ('0' <= c && c <= '9') || c == '_' || c == '.' || c == '-'
}

/// The first position from `p` on that holds no key character.
pub open spec fn key_end(s: Seq<char>, p: int) -> int
    decreases s.len() - p,
{
    if p >= s.len() {
        p
    } else if is_key_char(s[p]) {
        key_end(s, p + 1)
    } else {
        p
    }
}

pub proof fn lemma_key_end(s: Seq<char>, p: int)
    requires
        0 <= p <= s.len(),
    ensures
        p <= key_end(s, p) <= s.len(),
    decreases s.len() - p,
{
    if p < s.len() && is_key_char(s[p]) {
        lemma_key_end(s, p + 1);
    }
}

/// Whether the word `export` and a blank start at position `q`.
pub open spec fn export_at(s: Seq<char>, q: int) -> bool {
    &&& 0 <= q
    &&& q + 6 < s.len()
    &&& s.subrange(q, q + 6) == "export"@
    &&& (s[q + 6] == ' ' || s[q + 6] == '\t')
}

/// What the escape `\c` stands for inside double quotes; an unknown escape stays as written.
pub open spec fn escaped(c: char) -> Seq<char> {
    if c == 'n' {
        seq!['\n']
    } else if c == 't' {
        seq!['\t']
    } else if c == 'r' {
        seq!['\r']
    } else if c == '"' || c == '\\' || c == '$' {
        seq![c]
    } else {
        seq!['\\', c]
    }
}

/// Reading a double-quoted value from position `p` (after the opening quote), with `acc` read
/// so far: the value and the position after the closing quote, or nothing when it is missing.
pub open spec fn dq_scan(s: Seq<char>, p: int, acc: Seq<char>) -> Option<(Seq<char>, int)>
    decreases s.len() - p,
{
    if p < 0 || p >= s.len() {
        None
    } else if s[p] == '"' {
        Some((acc, p + 1))
    } else if s[p] == '\\' {
        if p + 1 < s.len() {
            dq_scan(s, p + 2, acc + escaped(s[p + 1]))
        } else {
            None
        }
    } else {
        dq_scan(s, p + 1, acc.push(s[p]))
    }
}

pub proof fn lemma_dq_scan(s: Seq<char>, p: int, acc: Seq<char>)
    ensures
        dq_scan(s, p, acc) matches Some((v, a)) ==> p < a <= s.len(),
    decreases s.len() - p,
{
    if 0 <= p < s.len() && s[p] != '"' {
        if s[p] == '\\' {
            if p + 1 < s.len() {
                lemma_dq_scan(s, p + 2, acc + escaped(s[p + 1]));
            }
        } else {
            lemma_dq_scan(s, p + 1, acc.push(s[p]));
        }
    }
}

/// After a closing quote only blanks, then the end of the line or a comment, may follow.
pub open spec fn quote_end_ok(s: Seq<char>, a: int) -> bool {
    let b = skip_hws(s, a);
    b >= s.len() || s[b] == '\n' || s[b] == '#'
}

/// The start of the comment in an unquoted value from `p` to the line end `e`: the first `#`
/// that follows a blank (`prev_ws` tells whether a blank comes just before `p`), or `e`.
pub open spec fn comment_start(s: Seq<char>, p: int, e: int, prev_ws: bool) -> int
    decreases e - p,
{
    if p >= e {
        e
    } else if s[p] == '#' && prev_ws {
        p
    } else {
        comment_start(s, p + 1, e, is_hws(s[p]))
    }
}

pub proof fn lemma_comment_start(s: Seq<char>, p: int, e: int, prev_ws: bool)
    requires
        p <= e,
    ensures
        p <= comment_start(s, p, e, prev_ws) <= e,
    decreases e - p,
{
    if p < e && !(s[p] == '#' && prev_ws) {
        lemma_comment_start(s, p + 1, e, is_hws(s[p]));
    }
}

/// The end of `s[a..b]` without its trailing blanks.
pub open spec fn rtrim_end(s: Seq<char>, a: int, b: int) -> int
    decreases b - a,
{
    if b <= a {
        a
    } else if is_hws(s[b - 1]) {
        rtrim_end(s, a, b - 1)
    } else {
        b
    }
}

pub proof fn lemma_rtrim_end(s: Seq<char>, a: int, b: int)
    requires
        a <= b,
    ensures
        a <= rtrim_end(s, a, b) <= b,
    decreases b - a,
{
    if a < b && is_hws(s[b - 1]) {
        lemma_rtrim_end(s, a, b - 1);
    }
}

/// The value that starts at position `start` (just after `=`), and the position where the
/// next line's reading starts; or the reason it is malformed.
pub open spec fn dot_value(s: Seq<char>, start: int) -> Result<(Seq<char>, int), Seq<char>> {
    let v0 = skip_hws(s, start);
    if v0 < s.len() && s[v0] == '"' {
        match dq_scan(s, v0 + 1, Seq::empty()) {
            None => Err("unterminated double-quoted value"@),
            Some((v, a)) => if quote_end_ok(s, a) {
                Ok((v, line_end(s, a)))
            } else {
                Err("unexpected text after a quoted value"@)
            },
        }
    } else if v0 < s.len() && s[v0] == '\'' {
        let q = find_char(s, v0 + 1, s.len() as int, '\'');
        if q >= s.len() {
            Err("unterminated single-quoted value"@)
        } else if quote_end_ok(s, q + 1) {
            Ok((s.subrange(v0 + 1, q), line_end(s, q + 1)))
        } else {
            Err("unexpected text after a quoted value"@)
        }
    } else {
        let e = line_end(s, v0);
        let c = comment_start(s, v0, e, v0 > start);
        Ok((s.subrange(v0, rtrim_end(s, v0, c)), e))
    }
}

pub proof fn lemma_dot_value(s: Seq<char>, start: int)
    requires
        0 <= start <= s.len(),
    ensures
        dot_value(s, start) matches Ok((v, next)) ==> start <= next <= s.len(),
{
    let v0 = skip_hws(s, start);
    lemma_skip_hws(s, start);
    if v0 < s.len() && s[v0] == '"' {
        lemma_dq_scan(s, v0 + 1, Seq::empty());
        if let Some((v, a)) = dq_scan(s, v0 + 1, Seq::empty()) {
            lemma_find_char(s, a, s.len() as int, '\n');
        }
    } else if v0 < s.len() && s[v0] == '\'' {
        lemma_find_char(s, v0 + 1, s.len() as int, '\'');
        let q = find_char(s, v0 + 1, s.len() as int, '\'');
        if q < s.len() {
            lemma_find_char(s, q + 1, s.len() as int, '\n');
        }
    } else {
        lemma_find_char(s, v0, s.len() as int, '\n');
    }
}

/// Reading the assignments from position `p` on into `acc`; the error detail names the line
/// and the reason, never the text.
pub open spec fn dotenv_from(s: Seq<char>, p: int, acc: Seq<(Seq<char>, Model)>) -> Result<
    Seq<(Seq<char>, Model)>,
    Seq<char>,
>
    decreases s.len() - p,
{
    if p < 0 || p >= s.len() {
        Ok(acc)
    } else {
        let q = skip_hws(s, p);
        proof {
            lemma_skip_hws(s, p);
        }
        if q >= s.len() {
            Ok(acc)
        } else if s[q] == '\n' {
            dotenv_from(s, q + 1, acc)
        } else if s[q] == '#' {
            proof {
                lemma_find_char(s, q, s.len() as int, '\n');
            }
            dotenv_from(s, line_end(s, q), acc)
        } else {
            let k0 = if export_at(s, q) {
                skip_hws(s, q + 6)
            } else {
                q
            };
            let k1 = key_end(s, k0);
            if k1 == k0 {
                Err(line_message(line_of(s, q), "expected a key"@))
            } else {
                let e0 = skip_hws(s, k1);
                if e0 >= s.len() || s[e0] != '=' {
                    Err(line_message(line_of(s, q), "expected '=' after the key"@))
                } else {
                    proof {
                        if export_at(s, q) {
                            lemma_skip_hws(s, q + 6);
                        }
                        lemma_key_end(s, k0);
                        lemma_skip_hws(s, k1);
                        lemma_dot_value(s, e0 + 1);
                    }
                    match dot_value(s, e0 + 1) {
                        Err(reason) => Err(line_message(line_of(s, q), reason)),
                        Ok((v, next)) => if obj_get(acc, s.subrange(k0, k1)) is Some {
                            Err(line_message(line_of(s, q), "duplicate key"@))
                        } else {
                            dotenv_from(s, next, obj_insert(acc, s.subrange(k0, k1), Model::Str(v)))
                        },
                    }
                }
            }
        }
    }
}

/// What reading a dotenv document gives: an object of strings.
pub open spec fn dotenv_load_spec(s: Seq<char>) -> Result<Model, ErrorModel> {
    match dotenv_from(s, 0, Seq::empty()) {
        Ok(d) => Ok(Model::Object(d)),
        Err(m) => Err(ErrorModel::ParseError { format: "dotenv"@, detail: m }),
    }
}

fn key_char(c: char) -> (r: bool)
    ensures
        r == is_key_char(c),
{
    ('a' <= c && c <= 'z') || ('A' <= c && c <= 'Z') || ('0' <= c && c <= '9') || c == '_' || c == '.' || c == '-'
}

fn key_end_exec(s: &[char], p: usize) -> (r: usize)
    requires
        p <= s.len(),
    ensures
        r == key_end(s@, p as int),
{
    let mut q = p;
    while q < s.len() && key_char(s[q])
        invariant
            p <= q <= s.len(),
            key_end(s@, p as int) == key_end(s@, q as int),
        decreases s.len() - q,
    {
        q = q + 1;
    }
    q
}

fn export_at_exec(s: &[char], q: usize) -> (r: bool)
    requires
        q <= s.len(),
    ensures
        r == export_at(s@, q as int),
{
    if q >= s.len() || s.len() - q <= 6 {
        return false;
    }
    let w = sub_chars(s, q, q + 6);
    proof {
        assert(['e', 'x', 'p', 'o', 'r', 't']@ =~= "export"@) by {
            reveal_strlit("export");
        }
    }
    crate::text::chars_equal(w.as_slice(), &['e', 'x', 'p', 'o', 'r', 't']) && (s[q + 6] == ' ' || s[q + 6] == '\t')
}

/// Appends what the escape `\c` stands for.
fn push_escaped(acc: &mut Vec<char>, c: char)
    ensures
        final(acc)@ == old(acc)@ + escaped(c),
{
    if c == 'n' {
        acc.push('\n');
    } else if c == 't' {
        acc.push('\t');
    } else if c == 'r' {
        acc.push('\r');
    } else if c == '"' || c == '\\' || c == '$' {
        acc.push(c);
    } else {
        acc.push('\\');
        acc.push(c);
    }
    assert(final(acc)@ =~= old(acc)@ + escaped(c));
}

fn dq_scan_exec(s: &[char], p: usize) -> (r: Option<(Vec<char>, usize)>)
    requires
        p <= s.len(),
    ensures
        match dq_scan(s@, p as int, Seq::empty()) {
            Some((v, a)) => r is Some && r->Some_0.0@ == v && r->Some_0.1 == a,
            None => r is None,
        },
{
    let mut acc: Vec<char> = Vec::new();
    let mut q = p;
    while q < s.len()
        invariant
            p <= q <= s.len(),
            dq_scan(s@, p as int, Seq::empty()) == dq_scan(s@, q as int, acc@),
        decreases s.len() - q,
    {
        let c = s[q];
        if c == '"' {
            return Some((acc, q + 1));
        }
        if c == '\\' {
            if q + 1 < s.len() {
                push_escaped(&mut acc, s[q + 1]);
                q = q + 2;
            } else {
                return None;
            }
        } else {
            acc.push(c);
            q = q + 1;
        }
    }
    None
}

fn quote_end_ok_exec(s: &[char], a: usize) -> (r: bool)
    requires
        a <= s.len(),
    ensures
        r == quote_end_ok(s@, a as int),
{
    let b = skip_hws_exec(s, a);
    b >= s.len() || s[b] == '\n' || s[b] == '#'
}

fn comment_start_exec(s: &[char], p: usize, e: usize, prev_ws: bool) -> (r: usize)
    requires
        p <= e <= s.len(),
    ensures
        r == comment_start(s@, p as int, e as int, prev_ws),
{
    let mut q = p;
    let mut w = prev_ws;
    while q < e
        invariant
            p <= q <= e <= s.len(),
            comment_start(s@, p as int, e as int, prev_ws) == comment_start(s@, q as int, e as int, w),
        decreases e - q,
    {
        if s[q] == '#' && w {
            return q;
        }
        w = s[q] == ' ' || s[q] == '\t' || s[q] == '\r';
        q = q + 1;
    }
    e
}

fn rtrim_end_exec(s: &[char], a: usize, b: usize) -> (r: usize)
    requires
        a <= b <= s.len(),
    ensures
        r == rtrim_end(s@, a as int, b as int),
{
    let mut q = b;
    while q > a && (s[q - 1] == ' ' || s[q - 1] == '\t' || s[q - 1] == '\r')
        invariant
            a <= q <= b <= s.len(),
            rtrim_end(s@, a as int, b as int) == rtrim_end(s@, a as int, q as int),
        decreases q - a,
    {
        q = q - 1;
    }
    q
}

/// Reads the value that starts at `start` (see `dot_value`).
fn dot_value_exec(s: &[char], start: usize) -> (r: Result<(Vec<char>, usize), &'static str>)
    requires
        start <= s.len(),
    ensures
        match dot_value(s@, start as int) {
            Ok((v, next)) => r is Ok && r->Ok_0.0@ == v && r->Ok_0.1 == next,
            Err(m) => r is Err && r->Err_0@ == m,
        },
{
    let v0 = skip_hws_exec(s, start);
    proof {
        lemma_skip_hws(s@, start as int);
    }
    if v0 < s.len() && s[v0] == '"' {
        match dq_scan_exec(s, v0 + 1) {
            None => Err("unterminated double-quoted value"),
            Some((v, a)) => {
                proof {
                    lemma_dq_scan(s@, v0 + 1, Seq::empty());
                }
                if quote_end_ok_exec(s, a) {
                    Ok((v, find_char_exec(s, a, s.len(), '\n')))
                } else {
                    Err("unexpected text after a quoted value")
                }
            },
        }
    } else if v0 < s.len() && s[v0] == '\'' {
        let q = find_char_exec(s, v0 + 1, s.len(), '\'');
        proof {
            lemma_find_char(s@, v0 + 1, s.len() as int, '\'');
        }
        if q >= s.len() {
            Err("unterminated single-quoted value")
        } else if quote_end_ok_exec(s, q + 1) {
            Ok((sub_chars(s, v0 + 1, q), find_char_exec(s, q + 1, s.len(), '\n')))
        } else {
            Err("unexpected text after a quoted value")
        }
    } else {
        let e = find_char_exec(s, v0, s.len(), '\n');
        proof {
            lemma_find_char(s@, v0 as int, s.len() as int, '\n');
        }
        let c = comment_start_exec(s, v0, e, v0 > start);
        proof {
            lemma_comment_start(s@, v0 as int, e as int, v0 > start);
        }
        let r = rtrim_end_exec(s, v0, c);
        proof {
            lemma_rtrim_end(s@, v0 as int, c as int);
        }
        Ok((sub_chars(s, v0, r), e))
    }
}

/// Reads a dotenv document into an object of strings (see `dotenv_load_spec`). Nothing is
/// expanded and no environment is read.
pub fn load(content: &str) -> (r: ConfigResult<Value>)
    ensures
        match dotenv_load_spec(content@) {
            Ok(m) => r is Ok && r->Ok_0.model() == m,
            Err(e) => r is Err && r->Err_0.model() == e,
        },
{
    let c = chars_of(content);
    let s = c.as_slice();
    let mut doc = ObjectMap::new();
    let mut p: usize = 0;
    while p < s.len()
        invariant
            p <= s.len(),
            s@ == content@,
            dotenv_from(s@, 0, Seq::empty()) == dotenv_from(s@, p as int, doc@),
        decreases s.len() - p,
    {
        let q = skip_hws_exec(s, p);
        proof {
            lemma_skip_hws(s@, p as int);
        }
        if q >= s.len() {
            p = s.len();
        } else if s[q] == '\n' {
            p = q + 1;
        } else if s[q] == '#' {
            proof {
                lemma_find_char(s@, q as int, s.len() as int, '\n');
            }
            p = find_char_exec(s, q, s.len(), '\n');
        } else {
            let k0 = if export_at_exec(s, q) {
                skip_hws_exec(s, q + 6)
            } else {
                q
            };
            proof {
                if export_at(s@, q as int) {
                    lemma_skip_hws(s@, q + 6);
                }
            }
            let k1 = key_end_exec(s, k0);
            proof {
                lemma_key_end(s@, k0 as int);
            }
            if k1 == k0 {
                let detail = line_message_at(s, q, "expected a key");
                return Err(ConfigError::ParseError { format: owned("dotenv"), detail });
            }
            let e0 = skip_hws_exec(s, k1);
            proof {
                lemma_skip_hws(s@, k1 as int);
            }
            if e0 >= s.len() || s[e0] != '=' {
                let detail = line_message_at(s, q, "expected '=' after the key");
                return Err(ConfigError::ParseError { format: owned("dotenv"), detail });
            }
            proof {
                lemma_dot_value(s@, e0 + 1);
            }
            match dot_value_exec(s, e0 + 1) {
                Err(reason) => {
                    let detail = line_message_at(s, q, reason);
                    return Err(ConfigError::ParseError { format: owned("dotenv"), detail });
                },
                Ok((v, next)) => {
                    let key = sub_chars(s, k0, k1);
                    proof {
                        lemma_obj_find(doc@, key@);
                    }
                    if doc.find(key.as_slice()).is_some() {
                        let detail = line_message_at(s, q, "duplicate key");
                        return Err(ConfigError::ParseError { format: owned("dotenv"), detail });
                    }
                    let _ = doc.insert(string_of(key.as_slice()), Value::String(string_of(v.as_slice())));
                    p = next;
                },
            }
        }
    }
    Ok(Value::Object(doc))
}

} // verus!
