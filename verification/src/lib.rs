//! GEON: a human-readable, indentation-structured text format for
//! describing geographic places, with a bidirectional transform between
//! that text and a recursive place-description tree.
//!
//! `parse` turns a document into a [`models::GeonPlace`]; `generate`
//! serializes a place back to canonical text. Both are total: malformed
//! input degrades to unset fields or skipped lines, never to a failure.

pub mod converter;
pub mod generator;
pub mod laws;
pub mod models;
pub mod parser;
pub mod text;

pub use generator::generate;
pub use models::{Coordinate, Extent, GeonPlace, Viewsheds};
pub use parser::{parse, GeonError, Node};
