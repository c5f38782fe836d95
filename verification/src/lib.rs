//! A diff annotation engine.
//!
//! The engine takes the lines of a unified diff one at a time, gathers the
//! removed and added lines of each hunk, pairs the lines that most likely
//! evolved from one another, finds the changed tokens inside each pair and
//! lays that change emphasis over syntax-highlighting spans. Every stage is
//! a total function with a machine-checked contract.
//!
//! The stages, in the order in which a line meets them:
//!
//! - `line` tells what kind of line it is;
//! - `prepare` takes the text of a line of a hunk from behind its marker;
//! - `hunk` keeps the removed and added lines that wait to be paired;
//! - `score`, `matching` and `pair` pair them;
//! - `token`, `align` and `edit` find what changed inside a pair;
//! - `style` lays the change over the syntax highlight;
//! - `emit` turns styled spans into bytes;
//! - `annotate` is the engine as a whole, `run` a whole diff at once, and
//!   `session` a run against a sink that may close;
//! - `launch` says what the program around the engine is to do.

pub mod config;
pub mod span;
pub mod line;
pub mod token;
pub mod align;
pub mod edit;
pub mod style;
pub mod score;
pub mod matching;
pub mod pair;
pub mod emit;
pub mod prepare;
pub mod hunk;
pub mod annotate;
pub mod run;
pub mod session;
pub mod launch;
