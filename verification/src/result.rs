//! What can go wrong in the library.
use vstd::prelude::*;

verus! {

/// The ways in which a history operation fails.
#[derive(Debug, Clone, Copy, PartialEq, Eq)]
pub enum ReedlineErrorVariants {
    /// Any history error that has no variant of its own.
    OtherHistoryError(&'static str),
    /// The history does not support the feature that was asked for.
    HistoryFeatureUnsupported {
        /// The kind of history that was asked.
        history: &'static str,
        /// The feature that it lacks.
        feature: &'static str,
    },
}

/// The error type of the library.
#[derive(Debug, Clone, Copy, PartialEq, Eq)]
pub struct ReedlineError(pub ReedlineErrorVariants);

impl ReedlineError {
    /// Whether this is the catch-all history error with the given message.
    pub open spec fn is_other(self, message: Seq<char>) -> bool {
        self.0 matches ReedlineErrorVariants::OtherHistoryError(m) && m@ == message
    }

    /// Whether this says that `history` does not support `feature`.
    pub open spec fn is_unsupported(self, history: Seq<char>, feature: Seq<char>) -> bool {
        self.0 matches ReedlineErrorVariants::HistoryFeatureUnsupported { history: h, feature: f }
            && h@ == history && f@ == feature
    }
}

} // verus!
