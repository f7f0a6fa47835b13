//! Objects in an S3 bucket that can be written and read at any position.
//!
//! An object is kept as a row of parts of one size, the part `n` of the object `key` under the
//! bucket key `key/n`.
pub mod config;
pub mod datastore;
pub mod error;
pub mod extract;
pub mod get;
pub mod overlap;
pub mod parts;
pub mod plan;
pub mod put;
pub mod range;
pub mod response;
pub mod update;
pub mod upload;
