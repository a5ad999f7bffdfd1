//! Filesystem usage queries: how full, in percent, is the filesystem that
//! holds a given directory.

use vstd::prelude::*;

verus! {

/// Why a usage query failed.
#[derive(Clone, Copy, Debug, PartialEq, Eq, Structural)]
pub enum QueryError {
    /// The statistics call itself failed; holds the raw errno.
    StatFailed(i32),
    /// The filesystem reported zero total blocks, so no percentage exists.
    NoBlocks,
    /// The computed percentage fell outside the 0 to 100 range.
    OutOfRange,
}

/// The share of the filesystem's blocks that are free, in percent,
/// rounded down.
pub open spec fn free_percent(free: u64, total: u64) -> int
    recommends
        total > 0,
{
    (free as int) * 100 / (total as int)
}

/// The exact outcome of the usage computation on given block counts: the
/// used-space percentage `100 - free_percent`, or the error when the counts
/// admit no percentage in range.
pub open spec fn usage_of(free: u64, total: u64) -> Result<u8, QueryError> {
    if total == 0 {
        Err(QueryError::NoBlocks)
    } else if free_percent(free, total) > 100 {
        Err(QueryError::OutOfRange)
    } else {
        Ok((100 - free_percent(free, total)) as u8)
    }
}

/// Computes the used-space percentage of a filesystem from its free and
/// total block counts.
pub fn compute_use_percentage(free: u64, total: u64) -> (r: Result<u8, QueryError>)
    ensures
        r == usage_of(free, total),
        r matches Ok(p) ==> p <= 100,
{
    if total == 0 {
        return Err(QueryError::NoBlocks);
    }
    let fp: u128 = (free as u128) * 100 / (total as u128);
    assert(fp == free_percent(free, total));
    if fp > 100 {
        return Err(QueryError::OutOfRange);
    }
    Ok((100 - fp) as u8)
}

/// Relies on nix::sys::statvfs::statvfs: fills in the statistics of the
/// filesystem holding `path`; `blocks_free()` and `blocks()` give its free
/// and total block counts. The counts depend on the live filesystem, so
/// nothing is promised of them. On failure the raw errno is handed back.
#[verifier::external_body]
fn statvfs_blocks(path: &Vec<u8>) -> Result<(u64, u64), i32> {
    match nix::sys::statvfs::statvfs(path.as_slice()) {
        Ok(s) => Ok((s.blocks_free(), s.blocks())),
        Err(e) => Err(e as i32),
    }
}

/// Reads the used-space percentage of the filesystem holding `path`. The
/// reading reflects the filesystem at the moment of the call; a successful
/// reading is always in the 0 to 100 range.
pub fn read_use_percentage(path: &Vec<u8>) -> (r: Result<u8, QueryError>)
    ensures
        r matches Ok(p) ==> p <= 100,
{
    match statvfs_blocks(path) {
        Ok((free, total)) => compute_use_percentage(free, total),
        Err(e) => Err(QueryError::StatFailed(e)),
    }
}

} // verus!
