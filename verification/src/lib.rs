//! A verified core for batch processing of multiple input sources.
//!
//! The library models the logic shared by simple line- and byte-oriented
//! text utilities: splitting content into lines, numbering lines, truncating
//! to a line or byte budget, and driving an ordered batch of sources whose
//! individual failures must not disturb the output of their neighbours.
//! All I/O stays with the caller; the functions here map plain byte values
//! to plain byte values and carry contracts that pin the output down exactly.

pub mod digits;
pub mod lines;
pub mod render;
pub mod batch;
pub mod words;
