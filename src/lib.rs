//! Parameterized routing of slash-delimited paths to stored values.
//!
//! A `Router` holds a tree of nodes, each owning a `Matcher` that decides
//! whether an incoming path segment leads into it. Matchers are built at
//! registration time by an ordered cascade of `Parser` values; routing takes,
//! at each level, the first child in insertion order whose matcher accepts
//! the segment, and collects the captures of the matchers on the way.
pub mod capture;
pub mod http;
pub mod matcher;
pub mod node;
pub mod parser;
pub mod prelude;
pub mod router;
pub mod segment;
