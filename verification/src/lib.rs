//! The core of a reverse Polish calculator over exact rational numbers.
//!
//! A line of text is split into tokens, checked against the depth of the
//! operand stack, and then executed. The arithmetic on the numbers themselves
//! is left to the embedding program: the calculator names each operation it
//! needs and takes the answer back. A line works on a copy of the stack, so
//! that a line either succeeds as a whole or leaves the stack as it was.

pub mod calculator;
pub mod highlight;
pub mod laws;
pub mod machine;
pub mod number;
pub mod semantics;
pub mod token;

pub use highlight::colorize;
pub use calculator::{Answer, Calculator, Request};
pub use number::{Fraction, Integer, ParseIntError, Rational};
pub use token::{Message, Token, TokenError, TokenView};
