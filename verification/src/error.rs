//! Error types with context and helpful hints.
use vstd::prelude::*;
use crate::text::{push_str, push_usize, owned, nat_text, chars_of, string_of, trim, trim_chars, before_first, before_first_exec};

verus! {

pub type ConfigResult<T> = Result<T, ConfigError>;

#[derive(Debug, Clone)]
pub enum ConfigError {
    EmptyPath,
    EmptyValues,
    UnknownSegment { path: String, segment: String },
    UnregisteredArray { path: String },
    SlugNotFound { prefix: String, slug: String },
    SlugAlreadyExists { prefix: String, slug: String },
    NotTraversable { path: String, got: String },
    TypeMismatch { path: String, expected: String, got: String, hint: Option<String> },
    PathNotFound { path: String },
    IndexOutOfBounds { path: String, index: usize, len: usize },
    ParseError { format: String, detail: String },
    IoError { detail: String },
    UnsupportedOperation { format: String, operation: String, detail: String },
}

/// The mathematical model of a `ConfigError`: the same variants with character sequences.
pub enum ErrorModel {
    EmptyPath,
    EmptyValues,
    UnknownSegment { path: Seq<char>, segment: Seq<char> },
    UnregisteredArray { path: Seq<char> },
    SlugNotFound { prefix: Seq<char>, slug: Seq<char> },
    SlugAlreadyExists { prefix: Seq<char>, slug: Seq<char> },
    NotTraversable { path: Seq<char>, got: Seq<char> },
    TypeMismatch { path: Seq<char>, expected: Seq<char>, got: Seq<char>, hint: Option<Seq<char>> },
    PathNotFound { path: Seq<char> },
    IndexOutOfBounds { path: Seq<char>, index: nat, len: nat },
    ParseError { format: Seq<char>, detail: Seq<char> },
    IoError { detail: Seq<char> },
    UnsupportedOperation { format: Seq<char>, operation: Seq<char>, detail: Seq<char> },
}

impl ConfigError {
    pub open spec fn model(self) -> ErrorModel {
        match self {
            ConfigError::EmptyPath => ErrorModel::EmptyPath,
            ConfigError::EmptyValues => ErrorModel::EmptyValues,
            ConfigError::UnknownSegment { path, segment } => ErrorModel::UnknownSegment {
                path: path@,
                segment: segment@,
            },
            ConfigError::UnregisteredArray { path } => ErrorModel::UnregisteredArray { path: path@ },
            ConfigError::SlugNotFound { prefix, slug } => ErrorModel::SlugNotFound {
                prefix: prefix@,
                slug: slug@,
            },
            ConfigError::SlugAlreadyExists { prefix, slug } => ErrorModel::SlugAlreadyExists {
                prefix: prefix@,
                slug: slug@,
            },
            ConfigError::NotTraversable { path, got } => ErrorModel::NotTraversable {
                path: path@,
                got: got@,
            },
            ConfigError::TypeMismatch { path, expected, got, hint } => ErrorModel::TypeMismatch {
                path: path@,
                expected: expected@,
                got: got@,
                hint: match hint {
                    Some(h) => Some(h@),
                    None => None,
                },
            },
            ConfigError::PathNotFound { path } => ErrorModel::PathNotFound { path: path@ },
            ConfigError::IndexOutOfBounds { path, index, len } => ErrorModel::IndexOutOfBounds {
                path: path@,
                index: index as nat,
                len: len as nat,
            },
            ConfigError::ParseError { format, detail } => ErrorModel::ParseError {
                format: format@,
                detail: detail@,
            },
            ConfigError::IoError { detail } => ErrorModel::IoError { detail: detail@ },
            ConfigError::UnsupportedOperation { format, operation, detail } =>
                ErrorModel::UnsupportedOperation {
                format: format@,
                operation: operation@,
                detail: detail@,
            },
        }
    }
}

/// The human-readable message of an error.
pub open spec fn message_text(e: ErrorModel) -> Seq<char> {
    match e {
        ErrorModel::EmptyPath => "empty path provided"@,
        ErrorModel::EmptyValues => "at least one value required"@,
        ErrorModel::UnknownSegment { path, segment } => "path `"@ + path + "` segment `"@ + segment
            + "` not found"@,
        ErrorModel::UnregisteredArray { path } => "array at `"@ + path
            + "` not registered in KeyedList"@,
        ErrorModel::SlugNotFound { prefix, slug } => "no element with slug `"@ + slug
            + "` found in `"@ + prefix + "`"@,
        ErrorModel::SlugAlreadyExists { prefix, slug } => "slug `"@ + slug + "` already exists in `"@
            + prefix + "`"@,
        ErrorModel::NotTraversable { path, got } => "path `"@ + path + "` is "@ + got
            + ", cannot traverse further"@,
        ErrorModel::TypeMismatch { path, expected, got, hint } => "field `"@ + path + "` expects "@
            + expected + ", got `"@ + got + "`"@ + match hint {
            Some(h) => "\n  hint: "@ + h,
            None => Seq::empty(),
        },
        ErrorModel::PathNotFound { path } => "path `"@ + path + "` not found in config"@,
        ErrorModel::IndexOutOfBounds { path, index, len } => "index "@ + nat_text(index)
            + " out of bounds at `"@ + path + "` (len "@ + nat_text(len) + ")"@,
        ErrorModel::ParseError { format, detail } => "failed to parse "@ + format + ": "@ + detail,
        ErrorModel::IoError { detail } => "io error: "@ + detail,
        ErrorModel::UnsupportedOperation { format, operation, detail } => format
            + " does not support "@ + operation + ": "@ + detail,
    }
}

impl ConfigError {
    /// Wraps the message of a deserialization failure as a `TypeMismatch`, keeping the part
    /// before " at line " without surrounding whitespace.
    pub fn from_serde(path: &str, err: &str) -> (r: ConfigError)
        ensures
            r.model() == (ErrorModel::TypeMismatch {
                path: path@,
                expected: Seq::empty(),
                got: trim(before_first(err@, " at line "@)),
                hint: None,
            }),
    {
        let msg = chars_of(err);
        let pat = chars_of(" at line ");
        let head = before_first_exec(msg.as_slice(), pat.as_slice());
        let hint = trim_chars(head.as_slice());
        ConfigError::TypeMismatch {
            path: owned(path),
            expected: String::new(),
            got: string_of(hint.as_slice()),
            hint: None,
        }
    }

    /// The human-readable message of this error, as its `Display` renders it.
    pub fn message(&self) -> (r: String)
        ensures
            r@ == message_text(self.model()),
    {
        let mut s = String::new();
        match self {
            ConfigError::EmptyPath => push_str(&mut s, "empty path provided"),
            ConfigError::EmptyValues => push_str(&mut s, "at least one value required"),
            ConfigError::UnknownSegment { path, segment } => {
                push_str(&mut s, "path `");
                push_str(&mut s, path.as_str());
                push_str(&mut s, "` segment `");
                push_str(&mut s, segment.as_str());
                push_str(&mut s, "` not found");
            },
            ConfigError::UnregisteredArray { path } => {
                push_str(&mut s, "array at `");
                push_str(&mut s, path.as_str());
                push_str(&mut s, "` not registered in KeyedList");
            },
            ConfigError::SlugNotFound { prefix, slug } => {
                push_str(&mut s, "no element with slug `");
                push_str(&mut s, slug.as_str());
                push_str(&mut s, "` found in `");
                push_str(&mut s, prefix.as_str());
                push_str(&mut s, "`");
            },
            ConfigError::SlugAlreadyExists { prefix, slug } => {
                push_str(&mut s, "slug `");
                push_str(&mut s, slug.as_str());
                push_str(&mut s, "` already exists in `");
                push_str(&mut s, prefix.as_str());
                push_str(&mut s, "`");
            },
            ConfigError::NotTraversable { path, got } => {
                push_str(&mut s, "path `");
                push_str(&mut s, path.as_str());
                push_str(&mut s, "` is ");
                push_str(&mut s, got.as_str());
                push_str(&mut s, ", cannot traverse further");
            },
            ConfigError::TypeMismatch { path, expected, got, hint } => {
                push_str(&mut s, "field `");
                push_str(&mut s, path.as_str());
                push_str(&mut s, "` expects ");
                push_str(&mut s, expected.as_str());
                push_str(&mut s, ", got `");
                push_str(&mut s, got.as_str());
                push_str(&mut s, "`");
                match hint {
                    Some(h) => {
                        push_str(&mut s, "\n  hint: ");
                        push_str(&mut s, h.as_str());
                    },
                    None => {
                        assert(s@ + Seq::<char>::empty() =~= s@);
                    },
                }
            },
            ConfigError::PathNotFound { path } => {
                push_str(&mut s, "path `");
                push_str(&mut s, path.as_str());
                push_str(&mut s, "` not found in config");
            },
            ConfigError::IndexOutOfBounds { path, index, len } => {
                push_str(&mut s, "index ");
                push_usize(&mut s, *index);
                push_str(&mut s, " out of bounds at `");
                push_str(&mut s, path.as_str());
                push_str(&mut s, "` (len ");
                push_usize(&mut s, *len);
                push_str(&mut s, ")");
            },
            ConfigError::ParseError { format, detail } => {
                push_str(&mut s, "failed to parse ");
                push_str(&mut s, format.as_str());
                push_str(&mut s, ": ");
                push_str(&mut s, detail.as_str());
            },
            ConfigError::IoError { detail } => {
                push_str(&mut s, "io error: ");
                push_str(&mut s, detail.as_str());
            },
            ConfigError::UnsupportedOperation { format, operation, detail } => {
                push_str(&mut s, format.as_str());
                push_str(&mut s, " does not support ");
                push_str(&mut s, operation.as_str());
                push_str(&mut s, ": ");
                push_str(&mut s, detail.as_str());
            },
        }
        proof {
            assert(Seq::<char>::empty() + message_text(self.model()) =~= message_text(self.model()));
        }
        s
    }
}

} // verus!
