//! Tokenizer for the response stream of a scripted test-and-measurement
//! instrument.

pub mod framing;
pub mod instrument;
pub mod markers;
pub mod parser;
pub mod text;
