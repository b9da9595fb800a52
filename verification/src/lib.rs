//! Disk Doctor's recovery logic: carving files out of raw bytes, reading
//! partition signatures, parsing disk listings, recovering git remotes,
//! paging through a hex view and hashing disk images.

pub mod text;
pub mod numfmt;
pub mod carver;
pub mod disk_info;
pub mod git_recovery;
pub mod hex_viewer;
pub mod partition_scanner;
pub mod imager;
