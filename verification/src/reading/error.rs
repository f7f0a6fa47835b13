//! What can go wrong with a reading.
use vstd::prelude::*;

use crate::text;
use crate::text::push_decimal;

verus! {

/// The error of a read from a disk.
#[verifier::external_type_specification]
#[verifier::external_body]
pub struct ExIoError(std::io::Error);

/// The text that `std::io::Error` has for people, through its `Display` implementation. It may
/// depend on the machine, and nothing is claimed of it.
#[verifier::external_body]
fn io_error_text(error: &std::io::Error) -> (text: String) {
    format!("{}", error)
}

/// Errors that happen during reading.
#[derive(Debug)]
pub enum ReadingError {
    /// Failed to read chunk.
    ///
    /// This is an implementation bug, most likely due to mismatch between sector contents map and
    /// other farming parameters.
    FailedToReadChunk {
        /// Chunk location.
        chunk_location: u64,
        /// Low-level error.
        error: std::io::Error,
    },
    /// Invalid chunk, possible disk corruption.
    InvalidChunk {
        /// S-bucket.
        s_bucket: u16,
        /// Indicates whether chunk was encoded.
        encoded_chunk_used: bool,
        /// Chunk location.
        chunk_location: u64,
        /// Lower-level error.
        error: String,
    },
    /// Failed to erasure-decode record.
    FailedToErasureDecodeRecord {
        /// Piece offset.
        piece_offset: u16,
        /// Lower-level error.
        error: String,
    },
    /// Wrong record size after decoding.
    WrongRecordSizeAfterDecoding {
        /// Expected number of chunks.
        expected: usize,
        /// Actual number of chunks.
        actual: usize,
    },
    /// Failed to decode sector contents map.
    FailedToDecodeSectorContentsMap(String),
    /// I/O error occurred.
    Io(std::io::Error),
    /// Checksum mismatch.
    ChecksumMismatch,
}

impl ReadingError {
    /// The farm is unusable after this error.
    pub open spec fn fatal(self) -> bool {
        self is Io
    }

    /// Whether this error is fatal and renders farm unusable.
    pub fn is_fatal(&self) -> (r: bool)
        ensures
            r == (self is Io),
            r == self.fatal(),
    {
        match self {
            ReadingError::FailedToReadChunk { .. } => false,
            ReadingError::InvalidChunk { .. } => false,
            ReadingError::FailedToErasureDecodeRecord { .. } => false,
            ReadingError::WrongRecordSizeAfterDecoding { .. } => false,
            ReadingError::FailedToDecodeSectorContentsMap(_) => false,
            ReadingError::Io(_) => true,
            ReadingError::ChecksumMismatch => false,
        }
    }

    /// The text of the error, where `io_text` is the text of the I/O error in it, if there is
    /// one.
    pub open spec fn text(self, io_text: Seq<char>) -> Seq<char> {
        match self {
            ReadingError::FailedToReadChunk { chunk_location, error: _ } => {
                "Failed to read chunk at location "@ + text::decimal(chunk_location as nat) + ": "@
                    + io_text
            },
            ReadingError::InvalidChunk {
                s_bucket,
                encoded_chunk_used,
                chunk_location,
                error,
            } => {
                "Invalid chunk at location "@ + text::decimal(chunk_location as nat)
                    + " s-bucket "@ + text::decimal(s_bucket as nat) + " encoded "@ + (
                if encoded_chunk_used {
                    "true"@
                } else {
                    "false"@
                }) + ", possible disk corruption: "@ + error@
            },
            ReadingError::FailedToErasureDecodeRecord { piece_offset, error } => {
                "Failed to erasure-decode record at offset "@ + text::decimal(piece_offset as nat)
                    + ": "@ + error@
            },
            ReadingError::WrongRecordSizeAfterDecoding { expected, actual } => {
                "Wrong record size after decoding: expected "@ + text::decimal(expected as nat)
                    + ", actual "@ + text::decimal(actual as nat)
            },
            ReadingError::FailedToDecodeSectorContentsMap(error) => {
                "Failed to decode sector contents map: "@ + error@
            },
            ReadingError::Io(_) => "Reading I/O error: "@ + io_text,
            ReadingError::ChecksumMismatch => "Checksum mismatch"@,
        }
    }

    /// The text of the error, where `io_text` is the text of the I/O error in it, if there is
    /// one.
    pub fn message_with(&self, io_text: &str) -> (r: String)
        ensures
            r@ == self.text(io_text@),
    {
        let mut r = String::new();
        match self {
            ReadingError::FailedToReadChunk { chunk_location, error: _ } => {
                r.append("Failed to read chunk at location ");
                push_decimal(&mut r, *chunk_location);
                r.append(": ");
                r.append(io_text);
            },
            ReadingError::InvalidChunk {
                s_bucket,
                encoded_chunk_used,
                chunk_location,
                error,
            } => {
                r.append("Invalid chunk at location ");
                push_decimal(&mut r, *chunk_location);
                r.append(" s-bucket ");
                push_decimal(&mut r, *s_bucket as u64);
                r.append(" encoded ");
                if *encoded_chunk_used {
                    r.append("true");
                } else {
                    r.append("false");
                }
                r.append(", possible disk corruption: ");
                r.append(error.as_str());
            },
            ReadingError::FailedToErasureDecodeRecord { piece_offset, error } => {
                r.append("Failed to erasure-decode record at offset ");
                push_decimal(&mut r, *piece_offset as u64);
                r.append(": ");
                r.append(error.as_str());
            },
            ReadingError::WrongRecordSizeAfterDecoding { expected, actual } => {
                r.append("Wrong record size after decoding: expected ");
                push_decimal(&mut r, *expected as u64);
                r.append(", actual ");
                push_decimal(&mut r, *actual as u64);
            },
            ReadingError::FailedToDecodeSectorContentsMap(error) => {
                r.append("Failed to decode sector contents map: ");
                r.append(error.as_str());
            },
            ReadingError::Io(_) => {
                r.append("Reading I/O error: ");
                r.append(io_text);
            },
            ReadingError::ChecksumMismatch => {
                r.append("Checksum mismatch");
            },
        }
        proof {
            assert(r@ =~= self.text(io_text@));
        }
        r
    }

    /// The text of the error.
    pub fn message(&self) -> (r: String)
        ensures
            exists|io_text: Seq<char>| r@ == #[trigger] self.text(io_text),
            !(self is Io || self is FailedToReadChunk) ==> r@ == self.text(Seq::empty()),
    {
        match self {
            ReadingError::FailedToReadChunk { chunk_location: _, error } => {
                let io_text: String = io_error_text(error);
                self.message_with(io_text.as_str())
            },
            ReadingError::Io(error) => {
                let io_text: String = io_error_text(error);
                self.message_with(io_text.as_str())
            },
            _ => {
                let r: String = self.message_with("");
                proof {
                    assert(self.text(""@) == self.text(Seq::empty()));
                }
                r
            },
        }
    }
}

impl From<std::io::Error> for ReadingError {
    fn from(error: std::io::Error) -> (r: ReadingError) {
        ReadingError::Io(error)
    }
}

impl vstd::std_specs::convert::FromSpecImpl<std::io::Error> for ReadingError {
    open spec fn obeys_from_spec() -> bool {
        true
    }

    open spec fn from_spec(error: std::io::Error) -> ReadingError {
        ReadingError::Io(error)
    }
}

/// `number` is written in decimal digits and denotes `n`.
pub open spec fn writes(number: Seq<char>, n: nat) -> bool {
    &&& number.len() > 0
    &&& text::all_digits(number)
    &&& text::digits_value(number) == n
}

/// The text of an error tells what failed and where: the numbers in it are those of the error, and
/// the reason ends it.
pub proof fn law_errors_tell_what_failed(error: ReadingError, io_text: Seq<char>) -> (numbers: (
    Seq<char>,
    Seq<char>,
))
    ensures
        match error {
            ReadingError::FailedToReadChunk { chunk_location, error: _ } => {
                &&& writes(numbers.0, chunk_location as nat)
                &&& error.text(io_text) == "Failed to read chunk at location "@ + numbers.0 + ": "@
                    + io_text
            },
            ReadingError::InvalidChunk {
                s_bucket,
                encoded_chunk_used,
                chunk_location,
                error: reason,
            } => {
                &&& writes(numbers.0, chunk_location as nat)
                &&& writes(numbers.1, s_bucket as nat)
                &&& encoded_chunk_used ==> error.text(io_text) == "Invalid chunk at location "@
                    + numbers.0 + " s-bucket "@ + numbers.1 + " encoded "@ + "true"@
                    + ", possible disk corruption: "@ + reason@
                &&& !encoded_chunk_used ==> error.text(io_text) == "Invalid chunk at location "@
                    + numbers.0 + " s-bucket "@ + numbers.1 + " encoded "@ + "false"@
                    + ", possible disk corruption: "@ + reason@
            },
            ReadingError::FailedToErasureDecodeRecord { piece_offset, error: reason } => {
                &&& writes(numbers.0, piece_offset as nat)
                &&& error.text(io_text) == "Failed to erasure-decode record at offset "@
                    + numbers.0 + ": "@ + reason@
            },
            ReadingError::WrongRecordSizeAfterDecoding { expected, actual } => {
                &&& writes(numbers.0, expected as nat)
                &&& writes(numbers.1, actual as nat)
                &&& error.text(io_text) == "Wrong record size after decoding: expected "@
                    + numbers.0 + ", actual "@ + numbers.1
            },
            ReadingError::FailedToDecodeSectorContentsMap(reason) => error.text(io_text)
                == "Failed to decode sector contents map: "@ + reason@,
            ReadingError::Io(_) => error.text(io_text) == "Reading I/O error: "@ + io_text,
            ReadingError::ChecksumMismatch => error.text(io_text) == "Checksum mismatch"@,
        },
{
    let (first, second): (nat, nat) = match error {
        ReadingError::FailedToReadChunk { chunk_location, error: _ } => (chunk_location as nat, 0),
        ReadingError::InvalidChunk { s_bucket, chunk_location, .. } => (
            chunk_location as nat,
            s_bucket as nat,
        ),
        ReadingError::FailedToErasureDecodeRecord { piece_offset, error: _ } => (
            piece_offset as nat,
            0,
        ),
        ReadingError::WrongRecordSizeAfterDecoding { expected, actual } => (
            expected as nat,
            actual as nat,
        ),
        _ => (0, 0),
    };
    text::lemma_decimal_digits(first);
    text::lemma_decimal_value(first);
    text::lemma_decimal_digits(second);
    text::lemma_decimal_value(second);
    (text::decimal(first), text::decimal(second))
}

/// An error of the reading as a whole is fatal, and one about a chunk, a record, a contents map or a
/// piece is not.
pub proof fn law_only_whole_reads_are_fatal(error: ReadingError)
    ensures
        match error {
            ReadingError::Io(_) => error.fatal(),
            ReadingError::FailedToReadChunk { .. } => !error.fatal(),
            ReadingError::InvalidChunk { .. } => !error.fatal(),
            ReadingError::FailedToErasureDecodeRecord { .. } => !error.fatal(),
            ReadingError::WrongRecordSizeAfterDecoding { .. } => !error.fatal(),
            ReadingError::FailedToDecodeSectorContentsMap(_) => !error.fatal(),
            ReadingError::ChecksumMismatch => !error.fatal(),
        },
{
}

} // verus!
