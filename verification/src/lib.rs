//! An in-memory, mutable, JSON-like tree document store.
//!
//! A document is parsed from a JSON-compatible text into a flat arena of
//! nodes that records, for every node, the exact character positions of its
//! key and value inside the cleaned text buffer. On top of that arena the
//! crate offers path queries, an enhanced search language, and in-place
//! insertion and removal of sub-trees that keep the text, the arena and the
//! key index consistent with one another.

mod cache;
mod casts;
mod chars;
mod doc;
mod edit;
mod index;
mod laws;
mod node;
mod nodemap;
mod parse;
mod query;
mod scan;
mod search;
mod walk;

pub use cache::CacheEntry;
pub use cache::KeyCache;
pub use doc::Hson;
pub use doc::HsonError;
pub use edit::Ops;
pub use node::Event;
pub use node::Kind;
pub use node::Node;
pub use node::Vertex;
pub use nodemap::NodeMap;
pub use query::Query;
pub use search::Search;
