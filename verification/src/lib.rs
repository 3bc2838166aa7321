//! A small query engine over the call structure of a codebase.
//!
//! A declarative query (parsed by [`ast_generator`]) is interpreted by the
//! [`analyzer`] against a precomputed symbol index and call index held by the
//! [`searcher`]; confirmed caller/callee relationships are assembled into the
//! pruned directed [`graph`].

pub mod analyzer;
pub mod ast;
pub mod ast_generator;
pub mod graph;
pub mod indexing;
pub mod lang_server;
pub mod patterns;
pub mod searcher;
pub mod text;
