//! Sequence record tools: reverse complements, lexicographically minimal
//! rotations, a canonical form that ignores rotation and strand, record
//! sampling under a count quota or a byte budget, and small parsers for the
//! command-line values that drive them.

pub mod revcomp;
pub mod rotation;
pub mod lex_min;
pub mod sample;
pub mod parse;
pub mod n50;
pub mod error;
pub mod records;
