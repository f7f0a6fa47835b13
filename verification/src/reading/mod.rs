//! Reading pieces back out of plotted sectors.
//!
//! A sector holds a contents map, the chunks of its records and the metadata of its records, one
//! behind the other. The bytes come from a disk, or from an object in a bucket that the sector is
//! a part of.
pub mod agree;
pub mod chunks;
pub mod error;
pub mod fetch;
pub mod layout;
pub mod metadata;
pub mod piece;
pub mod plotted;
pub mod recover;
