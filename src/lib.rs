//! Infers the structure of an XML document from one pass over its token
//! stream: for every element name, the names seen directly under it, a few
//! sample values of each attribute, and a few samples of its text, all in
//! memory bounded by the number of distinct names.
pub mod element;
pub mod progress;
pub mod samples;
pub mod schema;
pub mod traversal;
pub mod truncate;
