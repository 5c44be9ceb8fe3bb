//! The failures that an analysis can end in.

use vstd::prelude::*;

verus! {

/// Why an analysis produced no result.
#[derive(Debug, Clone, PartialEq, Eq)]
pub enum AppError {
    /// The patterns handed in cannot be analysed: the list is empty, or a
    /// pattern names a third group without a second one.
    InvalidDataError(String),
    /// A count of combinations does not fit in 64 bits.
    OverflowCombinationError,
}

impl AppError {
    /// The message that describes this failure.
    pub fn message(&self) -> (text: String)
        ensures
            text@ == self.message_text(),
    {
        match self {
            AppError::InvalidDataError(detail) => {
                let mut text = "AppError::InvalidDataError: ".to_owned();
                text.append(detail.as_str());
                text
            },
            AppError::OverflowCombinationError => {
                "AppError::OverflowCombinationError: overflowed combination.".to_owned()
            },
        }
    }

    /// The characters of [`AppError::message`].
    pub open spec fn message_text(&self) -> Seq<char> {
        match self {
            AppError::InvalidDataError(detail) => "AppError::InvalidDataError: "@ + detail@,
            AppError::OverflowCombinationError => {
                "AppError::OverflowCombinationError: overflowed combination."@
            },
        }
    }
}

} // verus!
