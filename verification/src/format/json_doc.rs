//! JSON documents, read through serde_json.
use vstd::prelude::*;
use crate::value::Value;
use crate::error::{ConfigError, ConfigResult, ErrorModel};
use crate::json::{json_error, json_tree, json_model, read_json};
use crate::text::owned;

verus! {

/// Reads a JSON document: the value of the tree serde_json parses (see `json_model`);
/// serde_json's message is the detail of the parse error.
pub fn load(content: &str) -> (r: ConfigResult<Value>)
    ensures
        match json_error(content@) {
            Some(m) => r is Err && r->Err_0.model() == (ErrorModel::ParseError { format: "JSON"@, detail: m }),
            None => r is Ok && r->Ok_0.model() == json_model(json_tree(content@)),
        },
{
    match read_json(content) {
        Ok(v) => Ok(v),
        Err(m) => Err(ConfigError::ParseError { format: owned("JSON"), detail: m }),
    }
}

} // verus!
