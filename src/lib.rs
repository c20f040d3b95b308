//! Evaluation of integer arithmetic written in infix notation.
//!
//! The pipeline has two verified stages: a shunting-yard converter from
//! infix text to space-separated postfix text, and a stack machine that
//! evaluates the parsed postfix entries.

pub mod error;
pub mod converter;
pub mod balance;
pub mod conservation;
pub mod expression;
pub mod parser;
pub mod notation;
pub mod config;

pub use error::CalcError;
pub use converter::{infix_to_postfix, operator_priority};
pub use expression::{BinaryOp, ExpressionEntry};
pub use parser::{parse_i32, postfix_to_expression};
pub use notation::{get_operand_from_stack, PostfixNotation};
pub use config::Config;
