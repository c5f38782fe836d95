//! The options that the engine goes by.

use vstd::prelude::*;

verus! {

/// The options that the engine goes by.
#[derive(Clone, Copy, Debug, PartialEq, Eq)]
pub struct Config {
    /// The similarity, in parts per million, that a removed and an added
    /// line must exceed to be paired.
    pub minimum_pairing_similarity: u32,
    /// The number of spaces that stand for a tab in the text of a hunk; 0
    /// leaves tabs as they are.
    pub tab_width: usize,
    /// Whether colours are written with all 24 bits, or brought down to
    /// the 256 colours that every display knows.
    pub true_color_enabled: bool,
    /// The length in bytes above which a line is not held against any
    /// other: it is shown as removed or added as a whole.
    pub max_line_length_for_diffing: usize,
}

} // verus!
