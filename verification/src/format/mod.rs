//! Document formats: detecting one from a file name and reading a document in it.
//! JSON, TOML and YAML are read through their parsers; dotenv and INI by this library.
use vstd::prelude::*;
use crate::value::Value;
use crate::error::{ConfigError, ConfigResult, ErrorModel};
use crate::text::{lower_seq, lower_str, owned, chars_equal, occurs_at, occurs_at_exec};

pub mod json_doc;
pub mod toml_doc;
pub mod yaml_doc;
pub mod scan;
pub mod ini_doc;
pub mod dotenv_doc;

verus! {

/// A document format.
#[derive(Debug, Clone, Copy, PartialEq, Eq, Structural)]
pub enum Format {
    Json,
    Toml,
    Yaml,
    Dotenv,
    Ini,
}

/// What `Path::file_name` gives for the path text `p`, when that name is valid UTF-8.
pub uninterp spec fn file_name_of(p: Seq<char>) -> Option<Seq<char>>;

/// What `Path::extension` gives for the path text `p`, when that extension is valid UTF-8.
pub uninterp spec fn extension_of(p: Seq<char>) -> Option<Seq<char>>;

/// Calls `Path::file_name` on the path text `p`; the name comes back as a string. The result
/// is named by `file_name_of`.
#[verifier::external_body]
fn path_file_name(p: &str) -> (r: Option<String>)
    ensures
        match r {
            Some(n) => file_name_of(p@) == Some(n@),
            None => file_name_of(p@) is None,
        },
{
    std::path::Path::new(p).file_name().and_then(|n| n.to_str()).map(|n| n.to_string())
}

/// Calls `Path::extension` on the path text `p`; the extension comes back as a string. The
/// result is named by `extension_of`.
#[verifier::external_body]
fn path_extension(p: &str) -> (r: Option<String>)
    ensures
        match r {
            Some(e) => extension_of(p@) == Some(e@),
            None => extension_of(p@) is None,
        },
{
    std::path::Path::new(p).extension().and_then(|e| e.to_str()).map(|e| e.to_string())
}

/// The format that a file name and its extension indicate, letters compared without case:
/// dotenv for `.env`, names beginning with `.env.` and the extension `env`; otherwise the
/// extension `json`, `toml`, `yaml` or `yml`, or `ini`.
pub open spec fn detect_spec(name: Option<Seq<char>>, ext: Option<Seq<char>>) -> Option<Format> {
    match name {
        None => None,
        Some(n) => {
            let l = lower_seq(n);
            let le = match ext {
                Some(e) => Some(lower_seq(e)),
                None => None,
            };
            if l == seq!['.', 'e', 'n', 'v'] || occurs_at(l, seq!['.', 'e', 'n', 'v', '.'], 0) || le == Some(
                seq!['e', 'n', 'v'],
            ) {
                Some(Format::Dotenv)
            } else if le == Some(seq!['j', 's', 'o', 'n']) {
                Some(Format::Json)
            } else if le == Some(seq!['t', 'o', 'm', 'l']) {
                Some(Format::Toml)
            } else if le == Some(seq!['y', 'a', 'm', 'l']) || le == Some(seq!['y', 'm', 'l']) {
                Some(Format::Yaml)
            } else if le == Some(seq!['i', 'n', 'i']) {
                Some(Format::Ini)
            } else {
                None
            }
        },
    }
}

pub open spec fn opt_view(o: Option<&str>) -> Option<Seq<char>> {
    match o {
        Some(s) => Some(s@),
        None => None,
    }
}

/// Whether the lowercased characters `l` are the word `w`.
fn is_word(l: &Vec<char>, w: &[char]) -> (r: bool)
    ensures
        r == (l@ == w@),
{
    chars_equal(l.as_slice(), w)
}

/// Whether the lowercased extension is the word `w`.
fn ext_is(le: &Option<Vec<char>>, w: &[char]) -> (b: bool)
    ensures
        b == (match le {
            Some(x) => x@ == w@,
            None => false,
        }),
{
    match le {
        Some(x) => chars_equal(x.as_slice(), w),
        None => false,
    }
}

/// The format that a file name and its extension indicate. Lowercasing is ASCII-only,
/// which decides the same as full Unicode lowercasing here: no other character lowercases
/// to the letters these names are compared with.
pub fn detect_parts(name: Option<&str>, ext: Option<&str>) -> (r: Option<Format>)
    ensures
        r == detect_spec(opt_view(name), opt_view(ext)),
{
    proof {
        assert(['.', 'e', 'n', 'v']@ =~= seq!['.', 'e', 'n', 'v']);
        assert(['.', 'e', 'n', 'v', '.']@ =~= seq!['.', 'e', 'n', 'v', '.']);
        assert(['e', 'n', 'v']@ =~= seq!['e', 'n', 'v']);
        assert(['j', 's', 'o', 'n']@ =~= seq!['j', 's', 'o', 'n']);
        assert(['t', 'o', 'm', 'l']@ =~= seq!['t', 'o', 'm', 'l']);
        assert(['y', 'a', 'm', 'l']@ =~= seq!['y', 'a', 'm', 'l']);
        assert(['y', 'm', 'l']@ =~= seq!['y', 'm', 'l']);
        assert(['i', 'n', 'i']@ =~= seq!['i', 'n', 'i']);
    }
    let n = match name {
        None => return None,
        Some(n) => n,
    };
    let l = lower_str(n);
    let le: Option<Vec<char>> = match ext {
        Some(e) => Some(lower_str(e)),
        None => None,
    };
    if is_word(&l, &['.', 'e', 'n', 'v']) || occurs_at_exec(l.as_slice(), &['.', 'e', 'n', 'v', '.'], 0) || ext_is(&le, &['e', 'n', 'v']) {
        return Some(Format::Dotenv);
    }
    if ext_is(&le, &['j', 's', 'o', 'n']) {
        Some(Format::Json)
    } else if ext_is(&le, &['t', 'o', 'm', 'l']) {
        Some(Format::Toml)
    } else if ext_is(&le, &['y', 'a', 'm', 'l']) || ext_is(&le, &['y', 'm', 'l']) {
        Some(Format::Yaml)
    } else if ext_is(&le, &['i', 'n', 'i']) {
        Some(Format::Ini)
    } else {
        None
    }
}

/// The display name of a format.
pub open spec fn format_name_spec(f: Format) -> Seq<char> {
    match f {
        Format::Json => "JSON"@,
        Format::Toml => "TOML"@,
        Format::Yaml => "YAML"@,
        Format::Dotenv => "dotenv"@,
        Format::Ini => "INI"@,
    }
}

/// The display name of a format.
pub fn format_name(format: Format) -> (r: &'static str)
    ensures
        r@ == format_name_spec(format),
{
    match format {
        Format::Json => "JSON",
        Format::Toml => "TOML",
        Format::Yaml => "YAML",
        Format::Dotenv => "dotenv",
        Format::Ini => "INI",
    }
}

impl Format {
    /// Detects the format of the file at path text `path` from its name and extension (see
    /// `detect_parts`).
    pub fn detect(path: &str) -> (r: Option<Format>)
        ensures
            r == detect_spec(file_name_of(path@), extension_of(path@)),
    {
        let name = path_file_name(path);
        let ext = path_extension(path);
        let n: Option<&str> = match &name {
            Some(s) => Some(s.as_str()),
            None => None,
        };
        let e: Option<&str> = match &ext {
            Some(s) => Some(s.as_str()),
            None => None,
        };
        detect_parts(n, e)
    }

    /// Every format accepts changes.
    pub fn ensure_writable(&self, operation: &str) -> (r: ConfigResult<()>)
        ensures
            r is Ok,
    {
        Ok(())
    }

    /// Whether a document can be written out in this format: dotenv and INI documents are
    /// not written by this library and report an unsupported operation.
    pub fn check_savable(&self) -> (r: ConfigResult<()>)
        ensures
            match *self {
                Format::Dotenv => r is Err && r->Err_0.model() == (ErrorModel::UnsupportedOperation {
                    format: "dotenv"@,
                    operation: "save"@,
                    detail: "dotenv documents are not written back from a value tree"@,
                }),
                Format::Ini => r is Err && r->Err_0.model() == (ErrorModel::UnsupportedOperation {
                    format: "INI"@,
                    operation: "save"@,
                    detail: "INI documents are not written back from a value tree"@,
                }),
                _ => r is Ok,
            },
    {
        match self {
            Format::Dotenv => Err(ConfigError::UnsupportedOperation {
                format: owned("dotenv"),
                operation: owned("save"),
                detail: owned("dotenv documents are not written back from a value tree"),
            }),
            Format::Ini => Err(ConfigError::UnsupportedOperation {
                format: owned("INI"),
                operation: owned("save"),
                detail: owned("INI documents are not written back from a value tree"),
            }),
            _ => Ok(()),
        }
    }

    /// Reads a document in this format. Dotenv and INI documents are read by this library's
    /// own parsers (see `dotenv_load_spec` and `ini_load_spec`).
    pub fn load(&self, content: &str) -> (r: ConfigResult<Value>)
        ensures
            match *self {
                Format::Json => match crate::json::json_error(content@) {
                    Some(m) => r is Err && r->Err_0.model() == (ErrorModel::ParseError { format: "JSON"@, detail: m }),
                    None => r is Ok && r->Ok_0.model() == crate::json::json_model(crate::json::json_tree(content@)),
                },
                Format::Toml => match self::toml_doc::toml_error(content@) {
                    Some(m) => r is Err && r->Err_0.model() == (ErrorModel::ParseError { format: "TOML"@, detail: m }),
                    None => r is Ok && r->Ok_0.model() == self::toml_doc::toml_model(self::toml_doc::toml_tree(content@)),
                },
                Format::Yaml => match self::yaml_doc::yaml_error(content@) {
                    Some(m) => r is Err && r->Err_0.model() == (ErrorModel::ParseError { format: "YAML"@, detail: m }),
                    None => r is Ok && r->Ok_0.model() == self::yaml_doc::yaml_model(self::yaml_doc::yaml_tree(content@)),
                },
                Format::Dotenv => match self::dotenv_doc::dotenv_load_spec(content@) {
                    Ok(m) => r is Ok && r->Ok_0.model() == m,
                    Err(e) => r is Err && r->Err_0.model() == e,
                },
                Format::Ini => match self::ini_doc::ini_load_spec(content@) {
                    Ok(m) => r is Ok && r->Ok_0.model() == m,
                    Err(e) => r is Err && r->Err_0.model() == e,
                },
            },
    {
        match self {
            Format::Json => self::json_doc::load(content),
            Format::Toml => self::toml_doc::load(content),
            Format::Yaml => self::yaml_doc::load(content),
            Format::Dotenv => self::dotenv_doc::load(content),
            Format::Ini => self::ini_doc::load(content),
        }
    }
}

} // verus!
