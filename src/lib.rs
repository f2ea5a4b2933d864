//! Parsing of paragraph-structured `Key: value` documents into fields and stanzas,
//! and the decisions that project them onto a caller's data shape.
pub mod de;
pub mod error;
pub mod laws;
pub mod naive;
pub mod text;
