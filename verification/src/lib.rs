//! Dot-path access to configuration documents held as a value tree.
use vstd::prelude::*;

pub mod text;
pub mod value;
pub mod error;
pub mod render;
pub mod path;
pub mod json;
pub mod number;
pub mod coerce;
pub mod keyed;
pub mod traverse;
pub mod laws;
pub mod format;
pub mod schema;
pub mod cli;

verus! {

} // verus!
