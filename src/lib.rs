//! Syntax-highlight tokens for MessageFormat 2 messages.
//!
//! The library walks a parsed message tree once, labels its syntactic regions,
//! gives matching bracket pairs a label that rotates with nesting depth, and
//! appends one error token per diagnostic. Offsets are measured in UTF-16
//! code units, as text-editing hosts address text.
pub mod source;
pub mod tree;
pub mod highlight;
