//! Errors.

use vstd::prelude::*;

verus! {

/// What can stop a sweep.
#[derive(Clone, Copy, Debug, PartialEq, Eq, Structural)]
pub enum SweepError {
    /// The samples do not form a grid: a dimension is zero, or the number of
    /// samples is not width times height.
    MalformedInput,
    /// The canvas cannot exist: a pixel dimension is zero or does not fit a
    /// signed 32-bit coordinate.
    RenderTarget,
}

impl SweepError {
    /// A short description of the error, for diagnostics.
    pub fn message(&self) -> (text: &'static str)
        ensures
            text@ == (match *self {
                SweepError::MalformedInput => "malformed input"@,
                SweepError::RenderTarget => "invalid render target"@,
            }),
    {
        match self {
            SweepError::MalformedInput => "malformed input",
            SweepError::RenderTarget => "invalid render target",
        }
    }
}

} // verus!
