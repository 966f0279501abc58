//! File-size tiers and the choice of a transfer strategy.

use vstd::prelude::*;

use crate::scan;

verus! {

/// A destination file is worth a delta only above this size (10 MiB).
pub const DELTA_MIN_SIZE: u64 = 10 * 1024 * 1024;

/// How a file is transferred.
#[derive(Debug, Clone, Copy, PartialEq, Eq, Structural)]
pub enum TransferStrategy {
    /// Copy the whole file.
    Copy,
    /// Compute a delta against the destination file.
    Delta,
}

/// The size tier of a file.
#[derive(Debug, Clone, Copy, PartialEq, Eq, Structural)]
pub enum FileClass {
    /// Up to [`SMALL_FILE_MAX`]: batched with other small files.
    Small,
    /// Up to [`MEDIUM_FILE_MAX`]: transferred directly.
    Medium,
    /// Above: transferred in chunks.
    Large,
}

/// The largest small file (2 MiB).
pub const SMALL_FILE_MAX: u64 = 2 * 1024 * 1024;

/// The largest medium file (16 MiB).
pub const MEDIUM_FILE_MAX: u64 = 16 * 1024 * 1024;

/// How many workers `cpus` processors give.
pub open spec fn workers_for(cpus: int, is_network: bool) -> int {
    if is_network && cpus > 16 {
        16
    } else {
        cpus
    }
}

/// Every processor gets a worker; over a network there are at most sixteen, and
/// fewer only where there are fewer processors.
pub proof fn law_workers_follow_the_processors(cpus: int)
    ensures
        workers_for(cpus, false) == cpus,
        workers_for(cpus, true) <= 16 && workers_for(cpus, true) <= cpus,
        workers_for(cpus, true) == 16 || workers_for(cpus, true) == cpus,
{
}

/// How many workers `cpus` processors give: over a network at most 16.
pub fn thread_count(cpus: usize, is_network: bool) -> (n: usize)
    ensures
        n == workers_for(cpus as int, is_network),
        n == if is_network && cpus > 16 {
            16
        } else {
            cpus
        },
{
    if is_network && cpus > 16 {
        16
    } else {
        cpus
    }
}

/// The number of hash workers for a sync on this machine.
pub fn optimal_thread_count(is_network: bool) -> (n: usize)
    ensures
        exists|cpus: usize|
            cpus >= 1 && n == #[trigger] workers_for(cpus as int, is_network),
        n >= 1,
        is_network ==> n <= 16,
{
    thread_count(scan::cpu_count(), is_network)
}

/// The size tier of a size.
pub open spec fn class_of(size: u64) -> FileClass {
    if size <= SMALL_FILE_MAX {
        FileClass::Small
    } else if size <= MEDIUM_FILE_MAX {
        FileClass::Medium
    } else {
        FileClass::Large
    }
}

/// Classify a file by its size.
pub fn classify_file_size(size: u64) -> (c: FileClass)
    ensures
        c == class_of(size),
{
    if size <= SMALL_FILE_MAX {
        FileClass::Small
    } else if size <= MEDIUM_FILE_MAX {
        FileClass::Medium
    } else {
        FileClass::Large
    }
}

/// The strategy for a file of a size.
pub open spec fn strategy_of(src_size: u64, dest_exists: bool) -> TransferStrategy {
    if dest_exists && src_size > DELTA_MIN_SIZE {
        TransferStrategy::Delta
    } else {
        TransferStrategy::Copy
    }
}

/// Choose a transfer strategy: a delta for a large file that the destination
/// has, a whole copy for everything else.
pub fn determine_strategy(src_size: u64, dest_exists: bool) -> (s: TransferStrategy)
    ensures
        s == strategy_of(src_size, dest_exists),
{
    if dest_exists && src_size > DELTA_MIN_SIZE {
        TransferStrategy::Delta
    } else {
        TransferStrategy::Copy
    }
}

/// A small file is never sent as a delta, and a new file never is.
pub proof fn law_small_and_new_files_are_copied(size: u64, dest_exists: bool)
    requires
        class_of(size) == FileClass::Small || !dest_exists,
    ensures
        strategy_of(size, dest_exists) == TransferStrategy::Copy,
{
}

/// A file that the destination has is sent as a delta exactly when it is larger
/// than 10 MiB.
pub proof fn law_large_known_files_are_deltas(size: u64)
    ensures
        strategy_of(size, true) == TransferStrategy::Delta <==> size > 10_485_760,
        strategy_of(size, true) == TransferStrategy::Copy <==> size <= 10_485_760,
        strategy_of(size, false) == TransferStrategy::Copy,
{
}

/// The tiers follow the size: small up to 2 MiB, medium up to 16 MiB, large
/// above.
pub proof fn law_tiers_follow_the_size(size: u64)
    ensures
        class_of(size) == FileClass::Small <==> size <= 2_097_152,
        class_of(size) == FileClass::Medium <==> 2_097_152 < size <= 16_777_216,
        class_of(size) == FileClass::Large <==> size > 16_777_216,
{
}

} // verus!
