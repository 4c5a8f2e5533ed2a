//! Verified core of the parametric aircraft design system: the dimensional
//! expression language, the dependency graph over a document, diagnostics,
//! and the structural checks that run before any geometry is generated.
pub mod dim;
pub mod text;
pub mod diagnostic;
pub mod ast;
pub mod eval;
pub mod number;
pub mod lexer;
pub mod parser;
pub mod reprint;
pub mod check;
pub mod units;
pub mod model;
pub mod node;
pub mod order;
pub mod builder;
pub mod resolve;
pub mod infer;
pub mod graph;
pub mod incremental;
pub mod tangency;
pub mod decimal;
pub mod schema;
pub mod semantic;
pub mod engine;
pub mod panels;
pub mod profile;
pub mod mesh;
pub mod cli;
