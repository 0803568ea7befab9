//! Core YAML engine: AST types, text scanning, scalar resolution, path
//! handling, scalar formatting and splice-based source reassembly.
use vstd::prelude::*;

pub mod ast;
pub mod comment;
pub mod config;
pub mod dirty;
pub mod edit;
pub mod document;
pub mod error;
pub mod front_matter;
pub mod handlers;
pub mod i18n;
pub mod key_paths;
pub mod merge;
pub mod metadata;
pub mod navigate;
pub mod node_eq;
pub mod region;
pub mod registry;
pub mod scalar_fmt;
pub mod schema;
pub mod schema_language;
pub mod serializer;
pub mod snippet;
pub mod splice;
pub mod stream;
pub mod stream_dump;
pub mod tag_resolve;
pub mod text;
pub mod tree;
pub mod unit_plan;
pub mod validate;

verus! {

} // verus!
