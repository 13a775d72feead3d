use vstd::prelude::*;

verus! {

/// The reasons for which posterizing an image is refused.
#[derive(Debug, Clone, Copy, PartialEq, Eq, Structural)]
pub enum PosterizeErrorType {
    /// Fewer than two output levels per channel were asked for.
    MinimumLevel,
}

/// The error returned when posterizing an image is refused.
#[derive(Debug, Clone, Copy, PartialEq, Eq, Structural)]
pub struct PosterizeError(pub PosterizeErrorType);

impl PosterizeError {
    /// What went wrong.
    pub fn kind(&self) -> (r: PosterizeErrorType)
        ensures
            r == self.0,
    {
        self.0
    }

    /// A human-readable message for this error.
    pub fn description(&self) -> (r: &'static str)
        ensures
            r@ == "expected level higher than or equal to 2"@,
    {
        match self.0 {
            PosterizeErrorType::MinimumLevel => "expected level higher than or equal to 2",
        }
    }
}

} // verus!
