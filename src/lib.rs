//! Byte-level character frequency counting.
//!
//! The counter turns a byte buffer into a table of occurrence counts and then
//! into a frequency map keyed by count; the collector joins the contents of
//! several files into one buffer; the output module renders a frequency map
//! as one line of JSON.

pub mod collector;
pub mod counter;
pub mod output;
