//! An arithmetic calculator over integer literals written in several bases.
//!
//! - [`radix`] reads and writes whole numbers as digits in a radix.
//! - [`literal`] is the converter, which takes a literal from one base to
//!   another by a fixed list of rules.
//! - [`token`] cuts a line into tokens.
//! - [`postfix`] puts tokens into postfix order.
//! - [`eval`] evaluates a postfix expression.
//! - [`session`] puts these together for the two ways of use: a line that is
//!   calculated, and a list of arguments that are converted.
//! - [`text`] moves between strings and characters.
//!
//! The library does no floating point. Two rules of the converter speak of
//! doubles; for those the caller hands in a [`literal::DoubleCodec`].

pub mod eval;
pub mod literal;
pub mod postfix;
pub mod radix;
pub mod session;
pub mod text;
pub mod token;
