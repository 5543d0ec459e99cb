//! Errors of the table generator.
use vstd::prelude::*;

verus! {

/// What can go wrong while resolving parameters or merging user sections.
#[derive(Debug, Clone, Copy, PartialEq, Eq, Structural)]
pub enum SpwmError {
    /// Neither a sample count nor a time step could be derived from the
    /// given inputs.
    ParameterResolution,
    /// A user section opened at this index was never closed before the end
    /// of the existing file; rewriting would lose its text.
    UnterminatedSection { index: i32 },
}

impl SpwmError {
    /// A short description for diagnostics.
    pub fn message(&self) -> &'static str {
        match self {
            SpwmError::ParameterResolution => {
                "one of num_of_samples, step or carrier_freq is needed"
            },
            SpwmError::UnterminatedSection { .. } => {
                "a user section is never closed; refusing to drop its text"
            },
        }
    }
}

} // verus!
