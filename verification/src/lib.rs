//! A dice-rolling library.
//!
//! Tokens such as `2d6` are parsed into a [`RollCommand`] (a count of dice
//! and the range of each die); a command is simulated with a caller-supplied
//! value source, yielding a [`RollResult`]; a result renders itself as a
//! line such as `2, 5 (7)`.

pub mod digits;
pub mod rcmd;

pub use rcmd::RollCommand;
pub use rcmd::RollResult;
