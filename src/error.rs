//! Errors of the store.
use vstd::prelude::*;

verus! {

/// serde_json's error value, carried when a payload cannot be decoded.
#[verifier::external_type_specification]
#[verifier::external_body]
pub struct ExJsonError(serde_json::Error);

/// std's I/O error value, carried for the owner of the log files.
#[verifier::external_type_specification]
#[verifier::external_body]
pub struct ExIoError(std::io::Error);

/// What can go wrong in the store.
#[derive(Debug)]
pub enum KvsError {
    /// `remove` of a key that the store does not hold.
    NotFound,
    /// A record read at an offset is cut short: the bytes the frame needed,
    /// and the bytes that were there.
    PartialWritten(usize, usize),
    /// Reading or writing a log file failed.
    IoError(std::io::Error),
    /// A payload is not the JSON of a record.
    SerdeError(serde_json::Error),
    /// A payload decodes to fields whose tag names no record kind.
    UnknownRecordTag(u8),
    /// A record's encoding does not read back as the record itself.
    EncodingMismatch,
    /// A record's encoding is longer than a length prefix can state.
    RecordTooLarge(usize),
    /// A pointer record was found in the command log, where only content
    /// and deletions belong.
    FoundPointerFromDataWal,
    /// The index log refers to a command-log offset at which no complete
    /// record stands.
    IndexAheadOfData(u64),
    /// The sequence counter has reached its largest value.
    SequenceExhausted,
}

} // verus!
