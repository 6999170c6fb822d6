//! Flattens a parsed TOML document into shell-style `key=value` assignment
//! lines: each requested key is split on a configurable delimiter, resolved
//! by descending the document's nested tables, and rendered as one line.
pub mod args;
pub mod batch;
pub mod doc;
pub mod errors;
pub mod parse;
pub mod text;

pub use args::process_args;
pub use args::Args;
pub use batch::process_toml;
pub use doc::get_toml_value;
pub use doc::Doc;
pub use errors::TtError;
