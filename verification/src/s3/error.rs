//! What can go wrong with an object.
use vstd::prelude::*;

verus! {

/// Errors of the object operations.
#[derive(Debug, Clone, PartialEq, Eq)]
pub enum S3Error {
    /// No object of that key was ever put.
    NotFound { key: String },
    /// The upload was accepted without an upload id.
    MissingUploadId { key: String },
    /// A part was accepted without an entity tag.
    MissingETag { key: String },
    /// A byte range with neither a start nor an end.
    InvalidRange,
    /// A content range that is not of the form `bytes <start>-<end>/<total>`, or one in a response
    /// that ends before it starts, or is of more bytes than a buffer can hold.
    ParseRange,
    /// A response without a content type.
    MissingContentType,
    /// A single-range response without a content range.
    MissingContentRange,
    /// An entry of a multi-range response without a content range.
    MissingEntryContentRange,
    /// A multi-range response whose content type names no boundary.
    MissingBoundary,
    /// The body of a multi-range response could not be taken apart.
    Multipart { error: String },
    /// The response holds no run of bytes with all of a requested range.
    ParseRanges,
}

impl S3Error {
    /// The text of the error.
    pub open spec fn text(self) -> Seq<char> {
        match self {
            S3Error::NotFound { key } => key@ + " not found"@,
            S3Error::MissingUploadId { key } => key@ + ", must need upload id"@,
            S3Error::MissingETag { key } => key@ + " must need e_tag"@,
            S3Error::InvalidRange => "range params is invalid"@,
            S3Error::ParseRange => "parse range error"@,
            S3Error::MissingContentType => "Content-Type can't be empty"@,
            S3Error::MissingContentRange => "Content-Range can't be empty"@,
            S3Error::MissingEntryContentRange => "content-Range can't be empty"@,
            S3Error::MissingBoundary => "get boundary error"@,
            S3Error::Multipart { error } => error@,
            S3Error::ParseRanges => "parse ranges failed"@,
        }
    }

    /// The text of the error.
    pub fn message(&self) -> (text: String)
        ensures
            text@ == self.text(),
    {
        match self {
            S3Error::NotFound { key } => key.clone().concat(" not found"),
            S3Error::MissingUploadId { key } => key.clone().concat(", must need upload id"),
            S3Error::MissingETag { key } => key.clone().concat(" must need e_tag"),
            S3Error::InvalidRange => String::from_str("range params is invalid"),
            S3Error::ParseRange => String::from_str("parse range error"),
            S3Error::MissingContentType => String::from_str("Content-Type can't be empty"),
            S3Error::MissingContentRange => String::from_str("Content-Range can't be empty"),
            S3Error::MissingEntryContentRange => String::from_str("content-Range can't be empty"),
            S3Error::MissingBoundary => String::from_str("get boundary error"),
            S3Error::Multipart { error } => error.clone(),
            S3Error::ParseRanges => String::from_str("parse ranges failed"),
        }
    }
}

/// The text of an error about an object begins with the key of the object, and the text of a body
/// that could not be taken apart is that of the reason.
pub proof fn law_errors_name_the_object(error: S3Error)
    ensures
        match error {
            S3Error::NotFound { key } => error.text().len() > key@.len() && error.text().take(
                key@.len() as int,
            ) == key@,
            S3Error::MissingUploadId { key } => error.text().len() > key@.len()
                && error.text().take(key@.len() as int) == key@,
            S3Error::MissingETag { key } => error.text().len() > key@.len() && error.text().take(
                key@.len() as int,
            ) == key@,
            S3Error::Multipart { error: reason } => error.text() == reason@,
            _ => true,
        },
{
    reveal_strlit(" not found");
    reveal_strlit(", must need upload id");
    reveal_strlit(" must need e_tag");
    match error {
        S3Error::NotFound { key } => {
            assert(error.text().take(key@.len() as int) =~= key@);
        },
        S3Error::MissingUploadId { key } => {
            assert(error.text().take(key@.len() as int) =~= key@);
        },
        S3Error::MissingETag { key } => {
            assert(error.text().take(key@.len() as int) =~= key@);
        },
        _ => {},
    }
}

} // verus!
