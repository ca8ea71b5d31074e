//! INI documents in the conservative INI Core v1 dialect: `[section]` headers and
//! `key=value` entries, exact case-sensitive names, string values, comments only as whole
//! lines, CRLF line endings; no interpolation, includes, bare keys, entries outside a
//! section, duplicate sections, duplicate entries or multiline values.
use vstd::prelude::*;
use crate::value::{Value, ObjectMap, Model, obj_get, obj_insert, lemma_obj_insert_found, lemma_obj_find};
use crate::error::{ConfigError, ConfigResult, ErrorModel};
use crate::text::{trim, trim_chars, string_of, owned};
use crate::format::scan::{find_char, lemma_find_char, find_char_exec, line_end, line_of, line_message, line_message_at, sub_chars};

verus! {

/// How one line of an INI document reads.
pub enum IniLine {
    Blank,
    Section(Seq<char>),
    Entry(Seq<char>, Seq<char>),
    Bad(Seq<char>),
}

/// How a line reads, given its text `t` without surrounding whitespace: empty lines and
/// lines starting with `;` or `#` are blank; `[name]` with a non-empty name opens a section;
/// otherwise the line must hold `=`, and the text before the first `=` (trimmed, not empty)
/// is the key and the text after it (trimmed) the value.
pub open spec fn ini_line(t: Seq<char>) -> IniLine {
    if t.len() == 0 || t[0] == ';' || t[0] == '#' {
        IniLine::Blank
    } else if t[0] == '[' {
        if t.len() > 2 && t.last() == ']' {
            IniLine::Section(t.subrange(1, t.len() - 1))
        } else {
            IniLine::Bad("invalid section header"@)
        }
    } else {
        let i = find_char(t, 0, t.len() as int, '=');
        if i == t.len() {
            IniLine::Bad("expected key=value"@)
        } else if trim(t.take(i)).len() == 0 {
            IniLine::Bad("empty key"@)
        } else {
            IniLine::Entry(trim(t.take(i)), trim(t.skip(i + 1)))
        }
    }
}

/// The position after the line that starts at `p`.
pub open spec fn next_line(s: Seq<char>, p: int) -> int {
    let e = line_end(s, p);
    if e < s.len() {
        e + 1
    } else {
        e
    }
}

/// Reading the lines from position `p` on into the sections `doc`, with `cur` the section
/// that entries go to; the error detail names the line and the reason, never its text.
pub open spec fn ini_from(s: Seq<char>, p: int, doc: Seq<(Seq<char>, Model)>, cur: Option<Seq<char>>) -> Result<
    Seq<(Seq<char>, Model)>,
    Seq<char>,
>
    decreases s.len() - p,
{
    if p < 0 || p >= s.len() {
        Ok(doc)
    } else {
        let next = next_line(s, p);
        proof {
            lemma_find_char(s, p, s.len() as int, '\n');
        }
        match ini_line(trim(s.subrange(p, line_end(s, p)))) {
            IniLine::Blank => ini_from(s, next, doc, cur),
            IniLine::Bad(reason) => Err(line_message(line_of(s, p), reason)),
            IniLine::Section(name) => if obj_get(doc, name) is Some {
                Err(line_message(line_of(s, p), "duplicate section"@))
            } else {
                ini_from(s, next, obj_insert(doc, name, Model::Object(Seq::empty())), Some(name))
            },
            IniLine::Entry(k, v) => match cur {
                None => Err(line_message(line_of(s, p), "entry outside a section"@)),
                Some(sec) => match obj_get(doc, sec) {
                    Some(Model::Object(e)) => if obj_get(e, k) is Some {
                        Err(line_message(line_of(s, p), "duplicate key"@))
                    } else {
                        ini_from(s, next, obj_insert(doc, sec, Model::Object(obj_insert(e, k, Model::Str(v)))), cur)
                    },
                    _ => ini_from(s, next, doc, cur),
                },
            },
        }
    }
}

/// What reading an INI document gives: an object of sections, each an object of strings.
pub open spec fn ini_load_spec(s: Seq<char>) -> Result<Model, ErrorModel> {
    match ini_from(s, 0, Seq::empty(), None) {
        Ok(d) => Ok(Model::Object(d)),
        Err(m) => Err(ErrorModel::ParseError { format: "INI"@, detail: m }),
    }
}

/// A line as read, with its parts.
enum IniLineRead {
    Blank,
    Section(Vec<char>),
    Entry(Vec<char>, Vec<char>),
    Bad(&'static str),
}

spec fn read_view(r: IniLineRead) -> IniLine {
    match r {
        IniLineRead::Blank => IniLine::Blank,
        IniLineRead::Section(n) => IniLine::Section(n@),
        IniLineRead::Entry(k, v) => IniLine::Entry(k@, v@),
        IniLineRead::Bad(m) => IniLine::Bad(m@),
    }
}

/// Reads one trimmed line (see `ini_line`).
fn read_line(t: &[char]) -> (r: IniLineRead)
    ensures
        read_view(r) == ini_line(t@),
{
    if t.len() == 0 || t[0] == ';' || t[0] == '#' {
        return IniLineRead::Blank;
    }
    if t[0] == '[' {
        if t.len() > 2 && t[t.len() - 1] == ']' {
            return IniLineRead::Section(sub_chars(t, 1, t.len() - 1));
        }
        return IniLineRead::Bad("invalid section header");
    }
    let i = find_char_exec(t, 0, t.len(), '=');
    proof {
        lemma_find_char(t@, 0, t.len() as int, '=');
    }
    if i == t.len() {
        return IniLineRead::Bad("expected key=value");
    }
    let head = sub_chars(t, 0, i);
    let k = trim_chars(head.as_slice());
    assert(head@ =~= t@.take(i as int));
    if k.len() == 0 {
        return IniLineRead::Bad("empty key");
    }
    let tail = sub_chars(t, i + 1, t.len());
    let v = trim_chars(tail.as_slice());
    assert(tail@ =~= t@.skip(i + 1));
    IniLineRead::Entry(k, v)
}

spec fn opt_chars(o: Option<Vec<char>>) -> Option<Seq<char>> {
    match o {
        Some(v) => Some(v@),
        None => None,
    }
}

/// Reads an INI document into an object of sections, each an object of strings (see
/// `ini_load_spec`).
pub fn load(content: &str) -> (r: ConfigResult<Value>)
    ensures
        match ini_load_spec(content@) {
            Ok(m) => r is Ok && r->Ok_0.model() == m,
            Err(e) => r is Err && r->Err_0.model() == e,
        },
{
    let c = crate::text::chars_of(content);
    let mut doc = ObjectMap::new();
    let mut cur: Option<Vec<char>> = None;
    let mut p: usize = 0;
    while p < c.len()
        invariant
            p <= c.len(),
            c@ == content@,
            ini_from(c@, 0, Seq::empty(), None) == ini_from(c@, p as int, doc@, opt_chars(cur)),
        decreases c.len() - p,
    {
        let e = find_char_exec(c.as_slice(), p, c.len(), '\n');
        proof {
            lemma_find_char(c@, p as int, c.len() as int, '\n');
        }
        let next = if e < c.len() {
            e + 1
        } else {
            e
        };
        let raw = sub_chars(c.as_slice(), p, e);
        let t = trim_chars(raw.as_slice());
        let ghost g_doc = doc@;
        let ghost g_cur = opt_chars(cur);
        match read_line(t.as_slice()) {
            IniLineRead::Blank => {},
            IniLineRead::Bad(reason) => {
                let detail = line_message_at(c.as_slice(), p, reason);
                return Err(ConfigError::ParseError { format: owned("INI"), detail });
            },
            IniLineRead::Section(name) => {
                let ns = string_of(name.as_slice());
                if doc.find(name.as_slice()).is_some() {
                    proof {
                        lemma_obj_find(doc@, name@);
                    }
                    let detail = line_message_at(c.as_slice(), p, "duplicate section");
                    return Err(ConfigError::ParseError { format: owned("INI"), detail });
                }
                proof {
                    lemma_obj_find(doc@, name@);
                }
                let _ = doc.insert(ns, Value::Object(ObjectMap::new()));
                cur = Some(name);
            },
            IniLineRead::Entry(k, v) => {
                match &cur {
                    None => {
                        let detail = line_message_at(c.as_slice(), p, "entry outside a section");
                        return Err(ConfigError::ParseError { format: owned("INI"), detail });
                    },
                    Some(sec) => {
                        proof {
                            lemma_obj_find(doc@, sec@);
                        }
                        match doc.find(sec.as_slice()) {
                            None => {},
                            Some(i) => {
                                proof {
                                    use_type_invariant(&doc);
                                }
                                let old = doc.replace_at(i, Value::Null);
                                match old {
                                    Value::Object(mut m) => {
                                        let ks = string_of(k.as_slice());
                                        proof {
                                            lemma_obj_find(m@, k@);
                                        }
                                        if m.find(k.as_slice()).is_some() {
                                            let detail = line_message_at(c.as_slice(), p, "duplicate key");
                                            return Err(ConfigError::ParseError { format: owned("INI"), detail });
                                        }
                                        let _ = m.insert(ks, Value::String(string_of(v.as_slice())));
                                        let _ = doc.replace_at(i, Value::Object(m));
                                        proof {
                                            lemma_obj_insert_found(g_doc, sec@, doc@[i as int].1, i as int);
                                            assert(doc@ =~= g_doc.update(i as int, (sec@, doc@[i as int].1)));
                                        }
                                    },
                                    other => {
                                        let _ = doc.replace_at(i, other);
                                        proof {
                                            assert(doc@ =~= g_doc);
                                        }
                                    },
                                }
                            },
                        }
                    },
                }
            },
        }
        p = next;
    }
    Ok(Value::Object(doc))
}

} // verus!
