//! Turtle graphics driven by string rewriting.
//!
//! An instruction sequence is grown generation by generation under a fixed
//! rewrite rule set (a Lindenmayer-system grammar) and then walked by a
//! turtle interpreter, which turns it into an ordered drawing tape.  Two
//! instruction families exist: the deterministic Koch-snowflake family and
//! the stochastic tree family with save/restore branching and speed, angle
//! and weight modulation.
//!
//! Scalar payloads of the tree family are carried as the 32-bit words of the
//! single-precision values they stand for; the library never does arithmetic
//! on them.  A rendering stage outside the library evaluates the drawing
//! tape numerically.

pub mod instructions;
pub mod interpret;
mod random;
pub mod rewrite;
pub mod system;
