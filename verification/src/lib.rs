//! The core of a two-pass assembler for instruction sets that are defined by rules.
//!
//! A caller hands over the definition of an instruction set and source files that are cut into
//! tokens; `assemble` gives back the bits that the program stands for. `model` says what these
//! bits are, and `laws` what holds of every program.

pub mod assembler;
pub mod bitvec;
pub mod definition;
pub mod error;
pub mod expr;
pub mod integer;
pub mod label;
pub mod laws;
pub mod model;
pub mod parser;
pub mod rule;
pub mod source;
pub mod text;
pub mod token;

pub use assembler::assemble;
