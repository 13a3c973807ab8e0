//! Errors for parameters that lie outside what a metric accepts.

use vstd::prelude::*;

verus! {

/// A parameter that lies outside its valid range. It is reported before any text is
/// compared, and never replaced by the nearest valid value.
#[derive(Clone, Copy, Debug, PartialEq, Eq, Structural)]
pub enum ConfigError {
    /// A similarity cutoff that is not between 0 and 1.
    CutoffOutOfRange,
    /// A prefix weight that is not between 0 and 1/4.
    PrefixWeightOutOfRange,
}

impl ConfigError {
    /// The words in which the error names its parameter and the valid range.
    pub open spec fn text(self) -> Seq<char> {
        match self {
            ConfigError::CutoffOutOfRange => "cutoff must be between 0.0 and 1.0"@,
            ConfigError::PrefixWeightOutOfRange => "prefix_weight must be between 0.0 and 0.25"@,
        }
    }

    /// The parameter at fault and its valid range, in words.
    pub fn message(&self) -> (m: &'static str)
        ensures
            m@ == self.text(),
    {
        match self {
            ConfigError::CutoffOutOfRange => "cutoff must be between 0.0 and 1.0",
            ConfigError::PrefixWeightOutOfRange => "prefix_weight must be between 0.0 and 0.25",
        }
    }
}

} // verus!
