//! The errors that the store reports.
use vstd::prelude::*;

verus! {

/// Why a store operation failed.
#[derive(Debug, Clone, Copy, PartialEq, Eq, Structural)]
pub enum Error {
    /// `include_keys` and `include_values` were both false.
    IncludeKeysIncludeValuesBothFalse,
    /// A legacy value could not be encoded back to bytes.
    EncodingValueAsVecError,
    /// A log entry parsed as legacy JSON is not an envelope with a value.
    ErrorParsingAsLegacyValue,
    /// No message with the given key is indexed.
    MessageNotFound,
    /// The feed could not be looked up.
    FeedNotFound,
    /// The log could not be appended to.
    OffsetAppendError,
    /// The index could not take the new entries.
    SqliteAppendError,
    /// No valid frame stands at the expected offset.
    OffsetGetError,
    /// The index's high-water mark could not be read.
    UnableToGetLatestSequence,
}

impl Error {
    /// A sentence that describes the error.
    pub fn message(&self) -> (r: String)
        ensures
            match self {
            Error::IncludeKeysIncludeValuesBothFalse => r@ == "`include_keys` and `include_values` were both false. Pick one or both."@,
            Error::EncodingValueAsVecError => r@ == "Could not encode legacy value as vec"@,
            Error::ErrorParsingAsLegacyValue => r@ == "Error, tried to parse contents of db as legacy Value. The db may be corrupt. Rebuild the indexes"@,
            Error::MessageNotFound => r@ == "Error, could not find message in db."@,
            Error::FeedNotFound => r@ == "Error, could not find feed in db."@,
            Error::OffsetAppendError => r@ == "Error, could not batch append to offset file."@,
            Error::SqliteAppendError => r@ == "Error, could not batch append to sqlite db."@,
            Error::OffsetGetError => r@ == "Error, could not find entry at expected offset."@,
            Error::UnableToGetLatestSequence => r@ == "Error, could not get the latest sequence number from the db."@,
            },
    {
        let s: &str = match self {
            Error::IncludeKeysIncludeValuesBothFalse => "`include_keys` and `include_values` were both false. Pick one or both.",
            Error::EncodingValueAsVecError => "Could not encode legacy value as vec",
            Error::ErrorParsingAsLegacyValue => "Error, tried to parse contents of db as legacy Value. The db may be corrupt. Rebuild the indexes",
            Error::MessageNotFound => "Error, could not find message in db.",
            Error::FeedNotFound => "Error, could not find feed in db.",
            Error::OffsetAppendError => "Error, could not batch append to offset file.",
            Error::SqliteAppendError => "Error, could not batch append to sqlite db.",
            Error::OffsetGetError => "Error, could not find entry at expected offset.",
            Error::UnableToGetLatestSequence => "Error, could not get the latest sequence number from the db.",
        };
        s.to_owned()
    }
}

} // verus!
