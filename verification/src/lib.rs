//! An event-driven JSON scanner: one pass over the text, one callback per
//! scalar value, each reported with the key path that leads to it.

pub mod document;
pub mod laws;
pub mod machine;
pub mod parser;
pub mod path;
pub mod reading;
pub mod text;
pub mod types;
pub mod unescape;

pub use types::{JSONKey, JSONParseError, JSONParseErrorReason, ParseOptions, RootJSONValue};
pub use parser::{parse, parse_with_exit_signal};
pub use unescape::unescape_string_content;
pub use path::key_chain_equals;
