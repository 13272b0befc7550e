//! Reversible byte-stream compression.
//!
//! [`lz77`] is a textual LZ77 coder: repeated substrings inside a bounded
//! backward window become short escape-coded back-references, and the
//! output of printable input stays printable. [`deflate`] holds the
//! interface of a DEFLATE-style coder.

pub mod deflate;
pub mod lz77;
