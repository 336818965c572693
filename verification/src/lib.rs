//! JEFF front end and exact math kernels, verified with Verus.
//!
//! Layout:
//! - `text`: small verified string helpers (decimal rendering, char/str comparison).
//! - `span`: source spans and diagnostics.

pub mod text;
pub mod span;
pub mod ordinal;
pub mod primes;
pub mod euler;
pub mod tetration;
pub mod tff;
pub mod tropical;
pub mod ast;
pub mod lexer;
pub mod parser;
pub mod syntax;

pub mod types;
pub mod streaming;
pub mod pqc;
pub mod driver;
pub mod planted;
pub mod recurrence;
pub mod python;
pub mod rational;
pub mod poly;
pub mod ratfun;
pub mod index_sums;
pub mod tensornet;
pub mod sos;
pub mod recognizer;
