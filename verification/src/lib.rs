//! Validation of JSON and YAML documents against the schema that they name.
use vstd::prelude::*;

pub mod backend;
pub mod json;
pub mod json_tree;
pub mod pointer;
pub mod report;
pub mod schema;
pub mod steps;
pub mod table;
pub mod text;
pub mod text_index;
pub mod uri;
pub mod validate;
pub mod yaml_agree;
pub mod yaml_json;
pub mod yaml_spans;

verus! {

} // verus!
