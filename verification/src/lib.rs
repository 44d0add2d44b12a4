//! File Guardian: detects changes to the files of a folder.
//!
//! A scan records, for every file under a folder, its path relative to the
//! folder and the SHA-256 digest of its content, in a baseline text that is
//! encrypted with a key derived from a password. A check decrypts the
//! baseline, hashes the folder again and reports each file as unchanged,
//! modified, new or deleted.

pub mod errors;
pub mod bytes;
pub mod crypto;
pub mod strings;
pub mod paths;
pub mod unix_path;
pub mod baseline;
pub mod report;
pub mod cli;
