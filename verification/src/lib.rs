//! Propositional-logic formulas: an infix parser built on the shunting-yard
//! algorithm, an evaluator, a canonical printer and truth-table enumeration.

pub mod error;
pub mod formula;
pub mod lexer;
pub mod names;
pub mod node;
pub mod operator;
pub mod parser;
pub mod roundtrip;
pub mod table;
pub mod text;

pub use error::ParseError;
pub use formula::Formula;
pub use node::Node;
pub use parser::FormulaParser;
