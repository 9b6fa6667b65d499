//! The error taxonomy of the library.

use vstd::prelude::*;

verus! {

/// Everything that can go wrong while choosing or recording a tag.
///
/// Parse failures (`VersionFormat`, `InvalidPosition`) are recoverable inside
/// interactive prompt loops; the remaining variants are fatal and propagate to
/// the caller.
#[derive(Clone, Copy, Debug, PartialEq, Eq, Structural)]
pub enum TaggingError {
    /// Raw text does not parse as a `major.minor.patch` semantic version.
    VersionFormat,
    /// An increment-position token other than the accepted ones.
    InvalidPosition,
    /// Quiet mode was requested without a pre-chosen increment position.
    MissingPosition,
    /// The tag store cannot be reached or returned unusable output.
    TagStoreUnavailable,
    /// The tag store rejected the write of the new tag.
    StoreWriteRejected,
    /// The line prompt failed or was given up on.
    PromptUnavailable,
    /// A version component is already at its representable maximum, so the
    /// requested bump cannot be performed.
    VersionLimit,
}

impl TaggingError {
    /// A short human-readable description, for the program around the library
    /// to print.
    pub fn describe(&self) -> (r: String)
        ensures
            r@ == match *self {
                TaggingError::VersionFormat => "Version format error! Please input according to semantic versioning like '1.0.0'."@,
                TaggingError::InvalidPosition => "Invalid position. Supported positions are major(M), minor(m), patch(p)."@,
                TaggingError::MissingPosition => "Needs to specify `inc_position` if you use `quiet` flag"@,
                TaggingError::TagStoreUnavailable => "The tag store could not be reached."@,
                TaggingError::StoreWriteRejected => "The tag store rejected the new tag."@,
                TaggingError::PromptUnavailable => "No usable answer could be read from the prompt."@,
                TaggingError::VersionLimit => "The version component to bump is already at its maximum."@,
            },
    {
        match *self {
            TaggingError::VersionFormat => String::from_str("Version format error! Please input according to semantic versioning like '1.0.0'."),
            TaggingError::InvalidPosition => String::from_str("Invalid position. Supported positions are major(M), minor(m), patch(p)."),
            TaggingError::MissingPosition => String::from_str("Needs to specify `inc_position` if you use `quiet` flag"),
            TaggingError::TagStoreUnavailable => String::from_str("The tag store could not be reached."),
            TaggingError::StoreWriteRejected => String::from_str("The tag store rejected the new tag."),
            TaggingError::PromptUnavailable => String::from_str("No usable answer could be read from the prompt."),
            TaggingError::VersionLimit => String::from_str("The version component to bump is already at its maximum."),
        }
    }
}

} // verus!
