//! Turns the rows of a table into RDF: a SPARQL `CONSTRUCT` query is answered for each row, with
//! the cells of the row as the values of its variables, and the triples of the answers are
//! written out in Turtle, N-Triples or N-Quads.
pub mod columns;
pub mod comments;
pub mod config;
pub mod functions;
pub mod order;
pub mod output;
pub mod patterns;
pub mod pieces;
pub mod pipeline;
pub mod prefixes;
pub mod rdf;
pub mod rows;
pub mod split;
pub mod store;
pub mod table;
pub mod terms;
pub mod text;
pub mod transform;
pub mod variables;
pub mod windows;

pub use crate::config::{configure_transform, OxiGen};
pub use crate::output::flush_store;
