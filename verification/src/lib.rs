//! A small compiler for an expression language over 64-bit signed integers.
//!
//! A program is a sequence of statements, each an expression followed by a
//! semicolon. Expressions are made of number literals, variables, the four
//! arithmetic operations, comparisons, assignments and parentheses. The
//! compiler writes one routine in assembly text that evaluates the statements
//! in their order on a stack and returns the value of the last one.
//!
//! The work is done in three stages:
//!
//! - [`token`] splits the source text into tokens;
//! - [`node`] parses the tokens into one syntax tree per statement, by the
//!   rules of [`grammar`];
//! - [`generator`] turns the trees into instructions and writes them out,
//!   with numbers in [`decimal`].
//!
//! [`pipeline`] puts the stages on end. [`machine`] says what the
//! instructions do and shows that the routine of a program computes the
//! program; [`programs`] follows the simplest programs from their text to
//! their result.

pub mod decimal;
pub mod generator;
pub mod grammar;
pub mod machine;
pub mod node;
pub mod pipeline;
pub mod programs;
pub mod token;
