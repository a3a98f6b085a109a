//! Path completion for editors: locating path tokens in source text, resolving
//! them against workspace roots and user mappings, and ranking directory entries.
pub mod candidates;
pub mod chars;
pub mod context;
pub mod document_store;
pub mod documentation;
pub mod engine;
pub mod extension;
pub mod glob;
pub mod handlers;
pub mod order;
pub mod paths;
pub mod query;
pub mod resolver;
pub mod server;
pub mod settings;
pub mod sorting;
pub mod strs;
pub mod syntax;
pub mod text;
