//! Converts plain-text proxy endpoint lists (`address:port` or
//! `address:port:kind` lines) into a structured output document: parse each
//! line into a typed endpoint record, deduplicate, and wrap the records in a
//! document holding one selection group that names them all.

pub mod document;
pub mod endpoint;
pub mod ip;
pub mod text;
