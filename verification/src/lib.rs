//! Scanning primitives for a human-friendly JSON superset.
//!
//! The core is a bounded-lookahead byte reader (`reader::StringReader`)
//! that tracks line and column and skips whitespace and three comment
//! styles, and a number scanner (`number::ParseNumber`) built on it that
//! recognizes the JSON number grammar with exact overflow-promotion rules:
//! unsigned, signed, or floating, where the floating shape keeps the
//! digits the scanner read instead of a machine double.
//!
//! Every operation carries a contract over a mathematical model of the
//! input: what a scan returns, on which inputs it fails and with which
//! fault, and how the cursor moves. The `laws` module states and proves
//! the round-trip and integer-text properties on top of those contracts,
//! and `fmt` renders results back to the grammar's text. The `value` and
//! `builder` modules hold the generic value tree the surrounding format
//! parses into, and fluent builders for it.

pub mod builder;
pub mod digits;
pub mod error;
pub mod fmt;
pub mod laws;
pub mod number;
pub mod reader;
pub mod value;
