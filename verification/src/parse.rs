//! The trusted boundary to the `toml` crate: parsing the raw text and
//! rendering non-table values. Everything after this boundary works on the
//! library's own `Doc` tree and is verified.
use vstd::prelude::*;

use crate::doc::dv_entries;
use crate::doc::Doc;
use crate::doc::DocV;
use crate::errors::TtError;

verus! {

/// `toml::Value`, declared so that the conversion out of parsed documents
/// can be written against it.
#[verifier::external_type_specification]
#[verifier::external_body]
pub struct ExTomlValue(toml::Value);

/// The shape of the document that parsing `text` as TOML yields — the
/// entries of the root table, in order, each non-table value rendered to its
/// canonical TOML literal — or nothing where the text is not well-formed
/// TOML. Parsing and rendering depend on the text alone, so the result
/// carries a name rather than a definition: it stands for whatever
/// `toml::from_str` and the `Display` of `toml::Value` produce.
pub uninterp spec fn parsed_doc(text: Seq<char>) -> Option<Seq<(Seq<char>, DocV)>>;

/// Relies on `toml::from_str::<toml::Table>`: it parses the text into the
/// root table exactly when the text is well-formed TOML, deterministically in
/// the text. The entries are converted by `convert_value` below.
#[verifier::external_body]
pub(crate) fn parse_document(text: &str) -> (r: Result<Vec<(String, Doc)>, TtError>)
    ensures
        match r {
            Result::Ok(es) => parsed_doc(text@) == Some(dv_entries(es@)),
            Result::Err(e) => parsed_doc(text@) is None && e is Parse,
        },
{
    let table = match toml::from_str::<toml::Table>(text) {
        Ok(t) => t,
        Err(e) => return Err(TtError::Parse(e.to_string())),
    };
    let mut entries = Vec::new();
    for (k, v) in table {
        entries.push((k, convert_value(v)));
    }
    Ok(entries)
}

/// Relies on the `Display` of `toml::Value` to render a non-table value to
/// its canonical TOML literal, which depends on the value alone; tables
/// convert entry by entry. Called only from the body of `parse_document`.
#[verifier::external_body]
fn convert_value(v: toml::Value) -> (r: Doc) {
    match v {
        toml::Value::Table(t) => {
            let mut entries = Vec::new();
            for (k, w) in t {
                entries.push((k, convert_value(w)));
            }
            Doc::Table(entries)
        },
        other => Doc::Leaf(other.to_string()),
    }
}

} // verus!
