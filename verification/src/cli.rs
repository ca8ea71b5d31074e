//! The decisions of the command-line tool: choosing the format, checking flags that do not
//! combine, refusing to change linked files, splitting `FIELD=VALUE` arguments, choosing and
//! checking a secret's source, and rendering a scalar as raw bytes.
use vstd::prelude::*;
use vstd::utf8::{encode_utf8, valid_utf8, decode_utf8};
use crate::value::{Value, Model};
use crate::error::{ConfigError, ConfigResult, ErrorModel};
use crate::format::{Format, detect_spec, file_name_of, extension_of};
use crate::text::{chars_of, string_of, push_str, push_chars, owned, lower_seq, lower_str, chars_equal, int_text, push_i64, push_u64, nat_text};
use crate::number::{parse_i64_spec, parse_i64, unsigned_part, special_float};
use crate::render::bool_text;

verus! {

/// The most bytes a secret may have.
pub const MAX_VALUE_SECRET_BYTES: usize = 1048576;

/// Whether the lowercased `l` is the word `w`.
fn is_word(l: &Vec<char>, w: &[char]) -> (r: bool)
    ensures
        r == (l@ == w@),
{
    chars_equal(l.as_slice(), w)
}

/// The format that an explicit `--format` name selects, letters compared without case.
pub open spec fn format_by_name(l: Seq<char>) -> Option<Format> {
    if l == seq!['j', 's', 'o', 'n'] {
        Some(Format::Json)
    } else if l == seq!['t', 'o', 'm', 'l'] {
        Some(Format::Toml)
    } else if l == seq!['y', 'a', 'm', 'l'] || l == seq!['y', 'm', 'l'] {
        Some(Format::Yaml)
    } else if l == seq!['d', 'o', 't', 'e', 'n', 'v'] || l == seq!['e', 'n', 'v'] {
        Some(Format::Dotenv)
    } else if l == seq!['i', 'n', 'i'] {
        Some(Format::Ini)
    } else {
        None
    }
}

/// The format of the file at path text `file`: the explicit name when one is given, else the
/// one its name indicates.
pub open spec fn detect_format_spec(file: Seq<char>, explicit: Option<Seq<char>>) -> Result<Format, ErrorModel> {
    match explicit {
        Some(name) => match format_by_name(lower_seq(name)) {
            Some(f) => Ok(f),
            None => Err(ErrorModel::ParseError { format: "format"@, detail: "unsupported format `"@ + lower_seq(name) + "`"@ }),
        },
        None => match detect_spec(file_name_of(file), extension_of(file)) {
            Some(f) => Ok(f),
            None => Err(ErrorModel::ParseError {
                format: "format"@,
                detail: "cannot detect format from file extension; pass --format"@,
            }),
        },
    }
}

/// The format of the file at path text `file`: the explicit name when one is given (see
/// `format_by_name`), else the one the file's name indicates.
pub fn detect_format(file: &str, explicit: Option<&str>) -> (r: ConfigResult<Format>)
    ensures
        match detect_format_spec(file@, crate::format::opt_view(explicit)) {
            Ok(f) => r == Ok::<Format, ConfigError>(f),
            Err(e) => r is Err && r->Err_0.model() == e,
        },
{
    match explicit {
        Some(name) => {
            let l = lower_str(name);
            proof {
                assert(['j', 's', 'o', 'n']@ =~= seq!['j', 's', 'o', 'n']);
                assert(['t', 'o', 'm', 'l']@ =~= seq!['t', 'o', 'm', 'l']);
                assert(['y', 'a', 'm', 'l']@ =~= seq!['y', 'a', 'm', 'l']);
                assert(['y', 'm', 'l']@ =~= seq!['y', 'm', 'l']);
                assert(['d', 'o', 't', 'e', 'n', 'v']@ =~= seq!['d', 'o', 't', 'e', 'n', 'v']);
                assert(['e', 'n', 'v']@ =~= seq!['e', 'n', 'v']);
                assert(['i', 'n', 'i']@ =~= seq!['i', 'n', 'i']);
            }
            if is_word(&l, &['j', 's', 'o', 'n']) {
                Ok(Format::Json)
            } else if is_word(&l, &['t', 'o', 'm', 'l']) {
                Ok(Format::Toml)
            } else if is_word(&l, &['y', 'a', 'm', 'l']) || is_word(&l, &['y', 'm', 'l']) {
                Ok(Format::Yaml)
            } else if is_word(&l, &['d', 'o', 't', 'e', 'n', 'v']) || is_word(&l, &['e', 'n', 'v']) {
                Ok(Format::Dotenv)
            } else if is_word(&l, &['i', 'n', 'i']) {
                Ok(Format::Ini)
            } else {
                let mut detail = String::new();
                push_str(&mut detail, "unsupported format `");
                push_chars(&mut detail, l.as_slice());
                push_str(&mut detail, "`");
                assert(detail@ =~= "unsupported format `"@ + lower_seq(name@) + "`"@);
                Err(ConfigError::ParseError { format: owned("format"), detail })
            }
        },
        None => match Format::detect(file) {
            Some(f) => Ok(f),
            None => Err(ConfigError::ParseError {
                format: owned("format"),
                detail: owned("cannot detect format from file extension; pass --format"),
            }),
        },
    }
}

/// The output formats of the tool's protocol events.
#[derive(Debug, Clone, Copy, PartialEq, Eq, Structural)]
pub enum OutputKind {
    Json,
    Yaml,
    Plain,
}

/// What `--output` selects, letters compared without case: `json`, `yaml`, or `plain`
/// (also spelled `logfmt`); anything else is refused with a message naming it.
pub open spec fn parse_output_format_spec(value: Seq<char>) -> Result<OutputKind, Seq<char>> {
    let l = lower_seq(value);
    if l == seq!['j', 's', 'o', 'n'] {
        Ok(OutputKind::Json)
    } else if l == seq!['y', 'a', 'm', 'l'] {
        Ok(OutputKind::Yaml)
    } else if l == seq!['p', 'l', 'a', 'i', 'n'] || l == seq!['l', 'o', 'g', 'f', 'm', 't'] {
        Ok(OutputKind::Plain)
    } else {
        Err("unsupported output format `"@ + l + "`; expected json, yaml, or plain"@)
    }
}

/// The output format that `--output` selects (see `parse_output_format_spec`).
pub fn parse_output_format(value: &str) -> (r: Result<OutputKind, String>)
    ensures
        match parse_output_format_spec(value@) {
            Ok(k) => r == Ok::<OutputKind, String>(k),
            Err(m) => r is Err && r->Err_0@ == m,
        },
{
    let l = lower_str(value);
    proof {
        assert(['j', 's', 'o', 'n']@ =~= seq!['j', 's', 'o', 'n']);
        assert(['y', 'a', 'm', 'l']@ =~= seq!['y', 'a', 'm', 'l']);
        assert(['p', 'l', 'a', 'i', 'n']@ =~= seq!['p', 'l', 'a', 'i', 'n']);
        assert(['l', 'o', 'g', 'f', 'm', 't']@ =~= seq!['l', 'o', 'g', 'f', 'm', 't']);
    }
    if is_word(&l, &['j', 's', 'o', 'n']) {
        Ok(OutputKind::Json)
    } else if is_word(&l, &['y', 'a', 'm', 'l']) {
        Ok(OutputKind::Yaml)
    } else if is_word(&l, &['p', 'l', 'a', 'i', 'n']) || is_word(&l, &['l', 'o', 'g', 'f', 'm', 't']) {
        Ok(OutputKind::Plain)
    } else {
        let mut m = String::new();
        push_str(&mut m, "unsupported output format `");
        push_chars(&mut m, l.as_slice());
        push_str(&mut m, "`; expected json, yaml, or plain");
        assert(m@ =~= "unsupported output format `"@ + lower_seq(value@) + "`; expected json, yaml, or plain"@);
        Err(m)
    }
}

/// `get --value-only` writes raw bytes, so it cannot be combined with an explicit `--output`.
pub fn check_value_only(value_only: bool, output_explicit: bool) -> (r: ConfigResult<()>)
    ensures
        value_only && output_explicit ==> r is Err && r->Err_0.model() == (ErrorModel::UnsupportedOperation {
            format: "cli"@,
            operation: "get --value-only"@,
            detail: "--value-only cannot be combined with --output"@,
        }),
        !(value_only && output_explicit) ==> r is Ok,
{
    if value_only && output_explicit {
        return Err(ConfigError::UnsupportedOperation {
            format: owned("cli"),
            operation: owned("get --value-only"),
            detail: owned("--value-only cannot be combined with --output"),
        });
    }
    Ok(())
}

/// Whether a change to the file at path text `path` may go ahead: a symbolic link, or a
/// file with more than one hard link, is refused.
pub open spec fn preflight_spec(path: Seq<char>, operation: Seq<char>, is_symlink: bool, links: u64) -> Result<(), ErrorModel> {
    if is_symlink {
        Err(ErrorModel::UnsupportedOperation {
            format: "filesystem"@,
            operation,
            detail: "refusing to mutate symlink `"@ + path + "`"@,
        })
    } else if links > 1 {
        Err(ErrorModel::UnsupportedOperation {
            format: "filesystem"@,
            operation,
            detail: "refusing to mutate hardlinked file `"@ + path + "`"@,
        })
    } else {
        Ok(())
    }
}

/// Decides whether a change to the file at path text `path` may go ahead, given whether
/// the path is a symbolic link and how many hard links the file has (see `preflight_spec`).
pub fn preflight_mutation(path: &str, operation: &str, is_symlink: bool, links: u64) -> (r: ConfigResult<()>)
    ensures
        match preflight_spec(path@, operation@, is_symlink, links) {
            Ok(_) => r is Ok,
            Err(e) => r is Err && r->Err_0.model() == e,
        },
{
    if is_symlink || links > 1 {
        let mut detail = String::new();
        if is_symlink {
            push_str(&mut detail, "refusing to mutate symlink `");
        } else {
            push_str(&mut detail, "refusing to mutate hardlinked file `");
        }
        push_str(&mut detail, path);
        push_str(&mut detail, "`");
        proof {
            if is_symlink {
                assert(detail@ =~= "refusing to mutate symlink `"@ + path@ + "`"@);
            } else {
                assert(detail@ =~= "refusing to mutate hardlinked file `"@ + path@ + "`"@);
            }
        }
        return Err(ConfigError::UnsupportedOperation {
            format: owned("filesystem"),
            operation: owned(operation),
            detail,
        });
    }
    Ok(())
}

/// The index of the first `=` in `s`.
pub open spec fn first_eq(s: Seq<char>) -> Option<int> {
    if exists|i: int| 0 <= i < s.len() && s[i] == '=' {
        Some(choose|i: int| 0 <= i < s.len() && s[i] == '=' && forall|j: int| 0 <= j < i ==> s[j] != '=')
    } else {
        None
    }
}

/// One `FIELD=VALUE` argument split at its first `=`; the field name must not be empty.
pub open spec fn field_pair_spec(s: Seq<char>) -> Result<(Seq<char>, Seq<char>), ErrorModel> {
    match first_eq(s) {
        None => Err(ErrorModel::ParseError { format: "cli"@, detail: "field `"@ + s + "` must use FIELD=VALUE"@ }),
        Some(i) => if i == 0 {
            Err(ErrorModel::ParseError { format: "cli"@, detail: "field name must not be empty"@ })
        } else {
            Ok((s.take(i), s.skip(i + 1)))
        },
    }
}

/// The `FIELD=VALUE` arguments split in order, or the error of the first one that fails.
pub open spec fn field_pairs_spec(fields: Seq<Seq<char>>) -> Result<Seq<(Seq<char>, Seq<char>)>, ErrorModel>
    decreases fields.len(),
{
    if fields.len() == 0 {
        Ok(Seq::empty())
    } else {
        match field_pairs_spec(fields.drop_last()) {
            Err(e) => Err(e),
            Ok(ps) => match field_pair_spec(fields.last()) {
                Err(e) => Err(e),
                Ok(p) => Ok(ps.push(p)),
            },
        }
    }
}

/// The views of name/value pairs.
pub open spec fn pair_views(v: Seq<(String, String)>) -> Seq<(Seq<char>, Seq<char>)> {
    Seq::new(v.len(), |i: int| (v[i].0@, v[i].1@))
}

/// Splits one `FIELD=VALUE` argument.
fn split_field(s: &str) -> (r: ConfigResult<(String, String)>)
    ensures
        match field_pair_spec(s@) {
            Ok(p) => r is Ok && r->Ok_0.0@ == p.0 && r->Ok_0.1@ == p.1,
            Err(e) => r is Err && r->Err_0.model() == e,
        },
{
    let c = chars_of(s);
    let mut i: usize = 0;
    while i < c.len() && c[i] != '='
        invariant
            i <= c.len(),
            c@ == s@,
            forall|j: int| 0 <= j < i ==> c@[j] != '=',
        decreases c.len() - i,
    {
        i = i + 1;
    }
    if i == c.len() {
        let mut detail = String::new();
        push_str(&mut detail, "field `");
        push_str(&mut detail, s);
        push_str(&mut detail, "` must use FIELD=VALUE");
        assert(detail@ =~= "field `"@ + s@ + "` must use FIELD=VALUE"@);
        assert(first_eq(s@) is None);
        return Err(ConfigError::ParseError { format: owned("cli"), detail });
    }
    proof {
        assert(c@[i as int] == '=');
        let k = choose|k: int| 0 <= k < s@.len() && s@[k] == '=' && forall|j: int| 0 <= j < k ==> s@[j] != '=';
        assert(0 <= i < s@.len() && s@[i as int] == '=' && forall|j: int| 0 <= j < i ==> s@[j] != '=');
        if k < i {
            assert(s@[k] != '=');
        }
        if i < k {
            assert(s@[i as int] != '=');
        }
        assert(first_eq(s@) == Some(i as int));
    }
    if i == 0 {
        return Err(ConfigError::ParseError { format: owned("cli"), detail: owned("field name must not be empty") });
    }
    let name = string_of(crate::text::prefix_chars(c.as_slice(), i).as_slice());
    let rest = c.len() - (i + 1);
    let mut value: Vec<char> = Vec::new();
    let mut j: usize = i + 1;
    while j < c.len()
        invariant
            i + 1 <= j <= c.len(),
            c@ == s@,
            value@ == c@.subrange(i + 1, j as int),
        decreases c.len() - j,
    {
        value.push(c[j]);
        assert(c@.subrange(i + 1, j + 1) =~= c@.subrange(i + 1, j as int).push(c@[j as int]));
        j = j + 1;
    }
    assert(c@.subrange(i + 1, c.len() as int) =~= s@.skip(i + 1));
    Ok((name, string_of(value.as_slice())))
}

/// Splits `FIELD=VALUE` arguments at their first `=`, refusing one without `=` or with an
/// empty field name.
pub fn parse_field_pairs(fields: &[String]) -> (r: ConfigResult<Vec<(String, String)>>)
    ensures
        match field_pairs_spec(crate::path::views(fields@)) {
            Ok(ps) => r is Ok && pair_views(r->Ok_0@) == ps,
            Err(e) => r is Err && r->Err_0.model() == e,
        },
{
    let ghost fv = crate::path::views(fields@);
    let mut out: Vec<(String, String)> = Vec::new();
    let mut i: usize = 0;
    assert(fv.take(0) =~= Seq::<Seq<char>>::empty());
    assert(pair_views(out@) =~= Seq::<(Seq<char>, Seq<char>)>::empty());
    while i < fields.len()
        invariant
            i <= fields.len(),
            fv == crate::path::views(fields@),
            field_pairs_spec(fv.take(i as int)) == Ok::<Seq<(Seq<char>, Seq<char>)>, ErrorModel>(pair_views(out@)),
        decreases fields.len() - i,
    {
        assert(fv.take(i + 1).drop_last() =~= fv.take(i as int));
        assert(fv.take(i + 1).last() == fields@[i as int]@);
        match split_field(fields[i].as_str()) {
            Ok(p) => {
                let ghost before = out@;
                let ghost pv = (p.0@, p.1@);
                out.push(p);
                assert(pair_views(out@) =~= pair_views(before).push(pv));
            },
            Err(e) => {
                proof {
                    lemma_field_pairs_err(fv, i as int);
                }
                return Err(e);
            },
        }
        i = i + 1;
    }
    assert(fv.take(fields.len() as int) =~= fv);
    Ok(out)
}

/// An error at one argument is the error of the whole list when the ones before it split.
proof fn lemma_field_pairs_err(fv: Seq<Seq<char>>, i: int)
    requires
        0 <= i < fv.len(),
        field_pairs_spec(fv.take(i)) is Ok,
        field_pair_spec(fv[i]) is Err,
    ensures
        field_pairs_spec(fv) == Err::<Seq<(Seq<char>, Seq<char>)>, ErrorModel>(field_pair_spec(fv[i])->Err_0),
    decreases fv.len() - i,
{
    assert(fv.take(i + 1).drop_last() =~= fv.take(i));
    if i + 1 == fv.len() {
        assert(fv.take(i + 1) =~= fv);
    } else {
        lemma_field_pairs_err_up(fv, i + 1, field_pair_spec(fv[i])->Err_0);
    }
}

/// A list whose first `k` arguments fail keeps that error however it goes on.
proof fn lemma_field_pairs_err_up(fv: Seq<Seq<char>>, k: int, e: ErrorModel)
    requires
        0 < k <= fv.len(),
        field_pairs_spec(fv.take(k)) == Err::<Seq<(Seq<char>, Seq<char>)>, ErrorModel>(e),
    ensures
        field_pairs_spec(fv) == Err::<Seq<(Seq<char>, Seq<char>)>, ErrorModel>(e),
    decreases fv.len() - k,
{
    if k == fv.len() {
        assert(fv.take(k) =~= fv);
    } else {
        assert(fv.take(k + 1).drop_last() =~= fv.take(k));
        lemma_field_pairs_err_up(fv, k + 1, e);
    }
}

/// Calls `String::from_utf8`; the text comes back when the bytes are valid UTF-8, as the
/// characters they encode.
#[verifier::external_body]
fn utf8_string(bytes: Vec<u8>) -> (r: Option<String>)
    ensures
        match r {
            Some(s) => valid_utf8(bytes@) && s@ == decode_utf8(bytes@),
            None => !valid_utf8(bytes@),
        },
{
    String::from_utf8(bytes).ok()
}

/// The outcome of reading a secret: the read's error message, a secret over the size
/// limit, bytes that are not UTF-8, or the secret as the single value.
pub open spec fn read_secret_spec(read: Result<Seq<u8>, Seq<char>>, source: Seq<char>) -> Result<Seq<Seq<char>>, ErrorModel> {
    match read {
        Err(m) => Err(ErrorModel::IoError { detail: "read secret from "@ + source + ": "@ + m }),
        Ok(b) => if b.len() > MAX_VALUE_SECRET_BYTES {
            Err(ErrorModel::UnsupportedOperation {
                format: "secret source"@,
                operation: "read"@,
                detail: "secret exceeds 1048576 bytes"@,
            })
        } else if !valid_utf8(b) {
            Err(ErrorModel::ParseError { format: "secret source"@, detail: "secret input must be valid UTF-8"@ })
        } else {
            Ok(seq![decode_utf8(b)])
        },
    }
}

/// Turns what was read from a secret source (at most one byte over the limit) into the
/// single value to set; `source` names the source in an I/O error.
pub fn read_secret_reader(read: Result<Vec<u8>, String>, source: &str) -> (r: ConfigResult<Vec<String>>)
    ensures
        match read_secret_spec(
            match read {
                Ok(b) => Ok(b@),
                Err(m) => Err(m@),
            },
            source@,
        ) {
            Ok(vs) => r is Ok && crate::path::views(r->Ok_0@) == vs,
            Err(e) => r is Err && r->Err_0.model() == e,
        },
{
    let bytes = match read {
        Err(m) => {
            let mut detail = String::new();
            push_str(&mut detail, "read secret from ");
            push_str(&mut detail, source);
            push_str(&mut detail, ": ");
            push_str(&mut detail, m.as_str());
            assert(detail@ =~= "read secret from "@ + source@ + ": "@ + m@);
            return Err(ConfigError::IoError { detail });
        },
        Ok(b) => b,
    };
    if bytes.len() > MAX_VALUE_SECRET_BYTES {
        return Err(ConfigError::UnsupportedOperation {
            format: owned("secret source"),
            operation: owned("read"),
            detail: owned("secret exceeds 1048576 bytes"),
        });
    }
    match utf8_string(bytes) {
        None => Err(ConfigError::ParseError {
            format: owned("secret source"),
            detail: owned("secret input must be valid UTF-8"),
        }),
        Some(s) => {
            let ghost sv = s@;
            let mut v: Vec<String> = Vec::new();
            v.push(s);
            assert(crate::path::views(v@) =~= seq![sv]);
            Ok(v)
        },
    }
}

/// `s` without its trailing line feeds and carriage returns.
pub open spec fn trim_line_end(s: Seq<char>) -> Seq<char>
    decreases s.len(),
{
    if s.len() > 0 && (s.last() == '\n' || s.last() == '\r') {
        trim_line_end(s.drop_last())
    } else {
        s
    }
}

/// The secret typed at a prompt: the line read, without its line ending, must fit the size
/// limit in UTF-8 bytes.
pub fn secret_from_prompt(line: &str) -> (r: ConfigResult<Vec<String>>)
    ensures
        encode_utf8(trim_line_end(line@)).len() > MAX_VALUE_SECRET_BYTES ==> r is Err && r->Err_0.model() == (
        ErrorModel::UnsupportedOperation {
            format: "secret source"@,
            operation: "read"@,
            detail: "secret exceeds 1048576 bytes"@,
        }),
        encode_utf8(trim_line_end(line@)).len() <= MAX_VALUE_SECRET_BYTES ==> r is Ok && crate::path::views(r->Ok_0@)
            == seq![trim_line_end(line@)],
{
    let c = chars_of(line);
    let mut e = c.len();
    assert(c@.take(c.len() as int) =~= c@);
    while e > 0 && (c[e - 1] == '\n' || c[e - 1] == '\r')
        invariant
            e <= c.len(),
            c@ == line@,
            trim_line_end(line@) == trim_line_end(c@.take(e as int)),
        decreases e,
    {
        assert(c@.take(e as int).drop_last() =~= c@.take(e - 1));
        e = e - 1;
    }
    let value = string_of(crate::text::prefix_chars(c.as_slice(), e).as_slice());
    assert(value@ == trim_line_end(line@));
    let byte_len = value.as_str().as_bytes().len();
    if byte_len > MAX_VALUE_SECRET_BYTES {
        return Err(ConfigError::UnsupportedOperation {
            format: owned("secret source"),
            operation: owned("read"),
            detail: owned("secret exceeds 1048576 bytes"),
        });
    }
    let ghost vv = value@;
    let mut v: Vec<String> = Vec::new();
    v.push(value);
    assert(crate::path::views(v@) =~= seq![vv]);
    Ok(v)
}

/// Where a secret value comes from.
#[derive(Debug)]
pub enum SecretSource {
    /// The value given on the command line.
    Inline(String),
    /// Standard input, read to its end.
    Stdin,
    /// A line typed at the controlling terminal.
    Prompt,
    /// An inherited file descriptor.
    Descriptor(i32),
    /// No secret: the plain values are used.
    Values,
}

/// What `str::parse::<i32>` gives: an `i64` text whose value fits `i32`.
pub open spec fn parse_i32_spec(s: Seq<char>) -> Option<i32> {
    match parse_i64_spec(s) {
        Some(v) => if i32::MIN <= v <= i32::MAX {
            Some(v as i32)
        } else {
            None
        },
        None => None,
    }
}

/// Chooses where a secret value comes from: an inline value first, then stdin, then the
/// prompt, then a descriptor, which must read as a number of at least 3.
pub fn secret_source(inline: Option<String>, stdin: bool, prompt: bool, fd: Option<&str>) -> (r: ConfigResult<SecretSource>)
    ensures
        inline is Some ==> r is Ok && r->Ok_0 is Inline && r->Ok_0->Inline_0@ == inline->Some_0@,
        inline is None && stdin ==> r is Ok && r->Ok_0 is Stdin,
        inline is None && !stdin && prompt ==> r is Ok && r->Ok_0 is Prompt,
        inline is None && !stdin && !prompt && fd is Some ==> match parse_i32_spec(fd->Some_0@) {
            None => r is Err && r->Err_0.model() == (ErrorModel::ParseError {
                format: "secret source"@,
                detail: "--value-secret-fd requires a numeric descriptor"@,
            }),
            Some(n) => if n < 3 {
                r is Err && r->Err_0.model() == (ErrorModel::ParseError {
                    format: "secret source"@,
                    detail: "--value-secret-fd requires a descriptor >= 3"@,
                })
            } else {
                r is Ok && r->Ok_0 == SecretSource::Descriptor(n)
            },
        },
        inline is None && !stdin && !prompt && fd is None ==> r is Ok && r->Ok_0 is Values,
{
    if let Some(v) = inline {
        return Ok(SecretSource::Inline(v));
    }
    if stdin {
        return Ok(SecretSource::Stdin);
    }
    if prompt {
        return Ok(SecretSource::Prompt);
    }
    match fd {
        None => Ok(SecretSource::Values),
        Some(t) => {
            let c = chars_of(t);
            match parse_i64(c.as_slice()) {
                Some(n) => {
                    if n < -2147483648 || n > 2147483647 {
                        return Err(ConfigError::ParseError {
                            format: owned("secret source"),
                            detail: owned("--value-secret-fd requires a numeric descriptor"),
                        });
                    }
                    let m = n as i32;
                    if m < 3 {
                        Err(ConfigError::ParseError {
                            format: owned("secret source"),
                            detail: owned("--value-secret-fd requires a descriptor >= 3"),
                        })
                    } else {
                        Ok(SecretSource::Descriptor(m))
                    }
                },
                None => Err(ConfigError::ParseError {
                    format: owned("secret source"),
                    detail: owned("--value-secret-fd requires a numeric descriptor"),
                }),
            }
        },
    }
}

/// Whether a float's text denotes infinity or not-a-number.
pub open spec fn non_finite(t: Seq<char>) -> bool {
    special_float(unsigned_part(t, true).1)
}

/// The raw bytes that `get --value-only` writes for a value at `key`: a string's UTF-8
/// bytes, the text of a bool, integer, finite float or `null`; a non-finite float or a
/// container is refused.
pub open spec fn scalar_bytes_spec(m: Model, key: Seq<char>) -> Result<Seq<u8>, ErrorModel> {
    match m {
        Model::Str(s) => Ok(encode_utf8(s)),
        Model::Bool(b) => Ok(encode_utf8(bool_text(b))),
        Model::Integer(i) => Ok(encode_utf8(int_text(i as int))),
        Model::Unsigned(u) => Ok(encode_utf8(nat_text(u as nat))),
        Model::Float(t) => if non_finite(t) {
            Err(ErrorModel::UnsupportedOperation {
                format: "value"@,
                operation: "get --value-only"@,
                detail: "non-finite scalar at `"@ + key + "`"@,
            })
        } else {
            Ok(encode_utf8(t))
        },
        Model::Null => Ok(encode_utf8("null"@)),
        Model::Array(_) | Model::Object(_) => Err(ErrorModel::UnsupportedOperation {
            format: "value"@,
            operation: "get --value-only"@,
            detail: "path `"@ + key + "` is not a scalar"@,
        }),
    }
}

/// The UTF-8 bytes of a string slice.
fn text_bytes(s: &str) -> (r: Vec<u8>)
    ensures
        r@ == encode_utf8(s@),
{
    let b = s.as_bytes();
    let mut out: Vec<u8> = Vec::new();
    let mut i: usize = 0;
    while i < b.len()
        invariant
            i <= b.len(),
            b@ == encode_utf8(s@),
            out@ == b@.take(i as int),
        decreases b.len() - i,
    {
        out.push(b[i]);
        assert(b@.take(i + 1) =~= b@.take(i as int).push(b@[i as int]));
        i = i + 1;
    }
    assert(b@.take(b.len() as int) =~= b@);
    out
}

/// The raw bytes that `get --value-only` writes for a value at `key` (see
/// `scalar_bytes_spec`).
pub fn scalar_bytes(value: &Value, key: &str) -> (r: ConfigResult<Vec<u8>>)
    ensures
        match scalar_bytes_spec(value.model(), key@) {
            Ok(b) => r is Ok && r->Ok_0@ == b,
            Err(e) => r is Err && r->Err_0.model() == e,
        },
{
    match value {
        Value::String(s) => Ok(text_bytes(s.as_str())),
        Value::Bool(b) => {
            if *b {
                Ok(text_bytes("true"))
            } else {
                Ok(text_bytes("false"))
            }
        },
        Value::Integer(i) => {
            let mut t = String::new();
            push_i64(&mut t, *i);
            assert(t@ =~= int_text(*i as int));
            Ok(text_bytes(t.as_str()))
        },
        Value::Unsigned(u) => {
            let mut t = String::new();
            push_u64(&mut t, *u);
            assert(t@ =~= nat_text(*u as nat));
            Ok(text_bytes(t.as_str()))
        },
        Value::Float(t) => {
            let c = chars_of(t.as_str());
            if crate::number::is_non_finite(c.as_slice()) {
                let mut detail = String::new();
                push_str(&mut detail, "non-finite scalar at `");
                push_str(&mut detail, key);
                push_str(&mut detail, "`");
                assert(detail@ =~= "non-finite scalar at `"@ + key@ + "`"@);
                Err(ConfigError::UnsupportedOperation {
                    format: owned("value"),
                    operation: owned("get --value-only"),
                    detail,
                })
            } else {
                Ok(text_bytes(t.as_str()))
            }
        },
        Value::Null => Ok(text_bytes("null")),
        Value::Array(_) | Value::Object(_) => {
            let mut detail = String::new();
            push_str(&mut detail, "path `");
            push_str(&mut detail, key);
            push_str(&mut detail, "` is not a scalar");
            assert(detail@ =~= "path `"@ + key@ + "` is not a scalar"@);
            Err(ConfigError::UnsupportedOperation {
                format: owned("value"),
                operation: owned("get --value-only"),
                detail,
            })
        },
    }
}

} // verus!
