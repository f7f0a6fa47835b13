//! Storage of plotted sectors in an S3 bucket, the reading of pieces back out of such sectors, and
//! the channel and inherent primitives of the cross-domain messenger.
//!
//! Everything in this crate is plain computation. Requests to S3, disk reads and database access
//! are made by the caller, who hands the outcome back as plain values.
pub mod bytes;
pub mod messenger;
pub mod reading;
pub mod s3;
pub mod scale;
pub mod text;
