//! Dotted-path access into JSON document trees.
pub mod error;
pub mod laws;
pub mod path;
pub mod render;
pub mod resolve;
pub mod value;

pub use error::PajamasError;
pub use resolve::fetch;
pub use value::{json_value_type, JsonNumber, JsonValue};
