//! Disk-space cleanup library.
//!
//! Reclaims space on the filesystem holding a root directory by deleting the
//! oldest regular files matching a set of extensions, one at a time, until
//! the filesystem's usage percentage drops below a target, re-measuring the
//! live usage before every deletion. A dry-run mode reports the same
//! candidates without touching the filesystem.

pub mod cleanup;
pub mod scan;
pub mod usage;
