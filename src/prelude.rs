//! The items that almost every use of the crate needs.
pub use crate::matcher::Matcher;
pub use crate::parser::{DynamicParser, Parser, StaticParser};
pub use crate::router::Router;
