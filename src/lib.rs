//! Arithmetic expressions over decimal numbers, `+ - * /` and parentheses.
//!
//! [`convert::infix_to_rpn`] turns infix text into postfix tokens with the
//! shunting-yard method; [`reduce::reduce_rpn`] reduces postfix tokens to an
//! expression tree with an operand stack; [`parse::parse_expression`] does
//! both. Number literals stay as text in the tree, so that a caller computes
//! their values in whatever arithmetic it chooses. [`laws`] states what the
//! conversion and the reduction guarantee together.

pub mod error;
pub mod text;
pub mod convert;
pub mod literal;
pub mod expr;
pub mod reduce;
pub mod parse;
pub mod laws;
