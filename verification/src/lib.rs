//! Verified core of a directory-to-table-to-summary pipeline.
//!
//! The library scans lists of candidate paths for tabular data files,
//! parses each file's bytes as a header-less comma-separated table,
//! finds the row holding the minimum value of a designated column, and
//! renders one summary line per successfully processed file.  All file
//! and terminal I/O stays outside the library; every function here is
//! verified against its contract.

pub mod bytes;
pub mod paths;
pub mod numeric;
pub mod pipeline;
pub mod reduce;
pub mod table;
pub mod writer;
