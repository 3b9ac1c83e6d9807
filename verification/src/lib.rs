//! Verified core of a work-assisting scheduler and of the parallel
//! algorithms that run on it: how data-parallel work is split into chunks,
//! how chunks are claimed, how idle workers pick whom to help, the
//! reference-count protocol that decides when a task is finished, the
//! decoupled look-back used by the scan and compaction kernels, and the
//! partitioning steps of quicksort.

pub mod quicksort;
pub mod multisets;
pub mod distribution;
pub mod claims;
pub mod worker;
pub mod lookback;
pub mod sums;
pub mod lud;
pub mod benchmark;
pub mod names;
