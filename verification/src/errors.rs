//! The ways a batch fails: the document text does not parse, or a key marked
//! required resolves to nothing. Either failure aborts the whole batch.
use vstd::prelude::*;

verus! {

/// A batch-processing failure.
#[derive(Debug)]
pub enum TtError {
    /// The document text is not well-formed TOML; the payload carries the
    /// parser's own diagnostic.
    Parse(String),
    /// A key marked required resolved to nothing; the payload is the key's
    /// name with the required marker already stripped.
    MissingRequiredKey(String),
}

impl TtError {
    /// A human-readable description; the missing-key form names the key.
    pub fn message(&self) -> (r: String)
        ensures
            match self {
                TtError::Parse(m) => r@ == "parse toml: "@ + m@,
                TtError::MissingRequiredKey(k) => r@ == "missing required key: "@ + k@,
            },
    {
        match self {
            TtError::Parse(m) => {
                let mut out = String::from_str("parse toml: ");
                out.append(m.as_str());
                out
            },
            TtError::MissingRequiredKey(k) => {
                let mut out = String::from_str("missing required key: ");
                out.append(k.as_str());
                out
            },
        }
    }
}

} // verus!
