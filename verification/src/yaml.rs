//! Parsing the metadata block's key/value format.
//!
//! The block is YAML.  Parsing YAML is the outside parser's work; what
//! comes back is converted at once into [`Yaml`], a tree of plain values
//! that the verified decoder walks.

use vstd::prelude::*;

verus! {

/// A parsed document of the metadata block's format, as plain data.
pub enum Yaml {
    Null,
    Bool(bool),
    /// A number, kept as its text; the store reads no numeric fields.
    Number(String),
    Text(String),
    List(Vec<Yaml>),
    /// Key/value pairs, in document order, with unique text keys.
    Mapping(Vec<(String, Yaml)>),
    /// A tagged value; the store reads none.
    Other,
}

#[verifier::external_type_specification]
#[verifier::external_body]
pub struct ExYamlValue(serde_yml::Value);

/// What parsing yields on a given text: a tree for a well-formed
/// document, nothing for a malformed one.  YAML's grammar takes pages to
/// state, so the result is named rather than spelled out; the parse
/// depends on the text alone.
pub uninterp spec fn yaml_of(s: Seq<char>) -> Option<Yaml>;

/// Relies on serde_yml::Value: converts the parsed tree into plain data,
/// variant by variant.
#[verifier::external_body]
fn yaml_from_value(v: serde_yml::Value) -> Yaml {
    match v {
        serde_yml::Value::Null => Yaml::Null,
        serde_yml::Value::Bool(b) => Yaml::Bool(b),
        serde_yml::Value::Number(n) => Yaml::Number(n.to_string()),
        serde_yml::Value::String(s) => Yaml::Text(s),
        serde_yml::Value::Sequence(xs) => Yaml::List(
            xs.into_iter().map(yaml_from_value).collect(),
        ),
        serde_yml::Value::Mapping(m) => Yaml::Mapping(
            m.into_iter().map(|(k, v)| (k, yaml_from_value(v))).collect(),
        ),
        serde_yml::Value::Tagged(_) => Yaml::Other,
    }
}

/// Relies on serde_yml::from_str: parses one YAML document, whose shape
/// depends on the text alone; a parse failure is reported as the
/// parser's message.
#[verifier::external_body]
pub(crate) fn parse_yaml(s: &str) -> (r: Result<Yaml, String>)
    ensures
        match r {
            Ok(y) => yaml_of(s@) == Some(y),
            Err(_) => yaml_of(s@) is None,
        },
{
    match serde_yml::from_str::<serde_yml::Value>(s) {
        Ok(v) => Ok(yaml_from_value(v)),
        Err(e) => Err(e.to_string()),
    }
}

} // verus!
