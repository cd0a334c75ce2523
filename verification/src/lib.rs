//! Decision core of an archive-extraction helper.
//!
//! Given the captured text of an archiver's technical listing and the
//! archive's file name, the library counts the archive's root-level
//! entries, classifies that count, and chooses where the archive should
//! be extracted: nowhere when the archive reports no root entries, the
//! current working directory when it reports exactly one, and a fresh
//! directory named after the archive's file stem when it reports several.
//! Running the listing and extraction commands is left to the caller.

pub mod listing;
pub mod policy;
