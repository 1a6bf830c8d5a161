//! Writing of a version-control index file: entry packing, ordering,
//! the header and the trailing digest, and the directory filter that
//! feeds paths to it.

pub mod bytes;
pub mod entry;
pub mod error;
pub mod hex;
pub mod index;
pub mod workspace;
