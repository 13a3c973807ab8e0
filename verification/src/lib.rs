//! Fuzzy comparison of strings, with every result stated and proved.
//!
//! Two metrics compare texts code point by code point, and one ranking serves both:
//!
//! * `levenshtein`: the edit distance, with an optional cutoff, and the similarity
//!   `1 - distance / longest`;
//! * `jaro_winkler`: matches within a window, transpositions, and the similarity
//!   `jaro + prefix * weight * (1 - jaro)`;
//! * `ranking`: the candidates whose score lies in a range, best first, ties in dictionary
//!   order, up to a limit.
//!
//! Scores are exact fractions, so that no comparison depends on rounding: `ratio` holds
//! those whose parts fit a machine word, `score` those of any size, over the natural
//! numbers of `wide`. No text is too long for its score to be exact. The contracts say
//! which number a function returns; the public proof functions state what holds of the
//! metrics in general: that the edit distance is the length of a shortest sequence of edits
//! (`edit_path`), that it is the same in both directions, that a ranking does not depend on
//! the order of the candidates.

pub mod edit_path;
pub mod error;
pub mod jaro_winkler;
pub mod levenshtein;
pub mod permutation;
pub mod ranking;
pub mod ratio;
pub mod score;
pub mod text;
pub mod wide;
