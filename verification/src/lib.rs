//! A compiler for a tiny declarative "counting rule" language.
//!
//! A source file names an inclusive numeric range and a list of
//! `divisor: literal` rules.  The compiled program walks the range and, for
//! each value, prints the literals of every rule whose divisor divides the
//! value (in declaration order, no separator), or the value itself in
//! decimal when no rule matches, one line per value.
//!
//! The crate parses source text into a [`parser::Rules`] value, turns it
//! into a backend-agnostic IR module ([`codegen::IrModule`]), and states and
//! proves what the generated program prints ([`eval`]).  Lowering the IR to
//! a native object file is left to the surrounding binary.

pub mod codegen;
pub mod eval;
pub mod parser;
pub mod report;

pub use codegen::compile;
pub use parser::parse;
