//! Stack traces of JavaScript runtimes, parsed into frames.
//!
//! A trace is free text. `ErrorParser` holds every line of it against the conventions in which
//! runtimes write a call site and gives the frames of the lines that match, in their order.
//! `SimdParser` takes the numbers straight out of the bytes of a trace, in batches or byte by
//! byte. Nothing here fails on any text: what cannot be read is passed over.

pub mod digits;
pub mod frame;
pub mod frameworks;
pub mod parser;
pub mod rules;
pub mod scanner;
pub mod simd;
pub mod text;
pub mod utils;

pub use frame::StackFrame;
pub use parser::ErrorParser;
pub use simd::SimdParser;
