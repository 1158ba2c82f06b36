//! Parsing of space-separated dotted-quad literals and their conversion to
//! packed integers, canonical text or byte tuples.
pub mod address;
pub mod batch;
pub mod ordering;
pub mod outcome;
pub mod parse;
