//! Compiler core for a small colour-definition language: it parses source
//! text describing named colours, light/dark colour pairs ("colour sets")
//! and nested grouping scopes ("rule sets"), resolves every symbolic
//! reference (variables, indirection chains, opacity overrides) to concrete
//! colours, and assembles a sorted, identifier-qualified tree of resolved
//! declarations.
//!
//! - [`ast`] holds the data model and its mathematical views;
//! - [`parser`] turns source bytes into a [`ast::Document`], all-or-nothing;
//! - [`var_context`] indexes top-level variables and resolves references;
//! - [`data`] assembles the resolved, sorted declaration tree;
//! - [`asset_catalog`] encodes colour components for the catalog writer;
//! - [`error`] holds the one terminal error of parsing or resolution.
//!
//! Alpha and opacity values are carried in thousandths (0 to 1000), which
//! makes colour equality exact at the millesimal precision the rest of the
//! pipeline expects.

pub mod asset_catalog;
pub mod ast;
pub mod data;
pub mod error;
pub mod parser;
pub mod var_context;

pub use ast::Color;
pub use error::Error;
pub use parser::parse_document;
pub use var_context::{ResolvedColorSet, ResolvedVariable, VarContext};
