//! Parser for an eight-symbol tape language into a tree-shaped instruction IR.
//!
//! Every executable function here is verified against a contract stated over
//! the mathematical model in [`ir`], [`brackets`], [`parser`] and [`display`].
pub mod brackets;
pub mod display;
pub mod ir;
pub mod parser;

pub use ir::Instruction;
pub use parser::{parse, try_parse};
