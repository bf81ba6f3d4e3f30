//! Transforms JSON-like documents with compiled rules: each rule pairs a
//! source expression (a read path, or a call such as `join(...)`) with a
//! destination path, and a pipeline applies its rules in order.
pub mod actions;
pub mod encode;
pub mod errors;
pub mod getter;
pub mod literal;
pub mod parser;
pub mod path;
pub mod setter;
pub mod text;
pub mod transformer;
pub mod value;

pub use actions::{Action, Host};
pub use errors::Error;
pub use parser::{Parsable, ParsableAction, ParsableCount, Parser, ParserBuilder};
pub use transformer::{TransformBuilder, Transformer};
pub use value::{Number, Value};
