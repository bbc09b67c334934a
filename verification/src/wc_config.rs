//! Run configuration: where to scan, where to write the two reports, and how
//! many indexing workers to run.
use vstd::prelude::*;

verus! {

/// Configuration for one counting run. Loading it from disk is the caller's
/// concern; the library only consumes the plain values.
pub struct WCConfig {
    /// Root directory to scan.
    pub indir: String,
    /// Output path for the alphabetically sorted report.
    pub out_by_a: String,
    /// Output path for the frequency-sorted report.
    pub out_by_n: String,
    /// Size of the indexing worker pool.
    pub index_threads: u32,
    /// Advisory queue size cap; reserved, not enforced.
    pub max_q_size: u32,
}

} // verus!
