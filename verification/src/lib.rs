//! Word-frequency counting over a corpus of plain-text files and archive
//! entries: classification of candidate files, Unicode-aware tokenization,
//! per-worker frequency tables, a deterministic merge of worker results, and
//! two sorted frequency reports.
pub mod laws;
pub mod report;
pub mod scan;
pub mod table;
pub mod tokenize;
pub mod wc_config;
pub mod worker;

use vstd::prelude::*;

verus! {

/// Files whose declared size exceeds this ceiling are never tokenized.
pub const MAX_FILESIZE: u64 = 10_000_000;

/// The outcome of one counting run: the global frequency table, plus the
/// elapsed timings the harness measured around the pipeline.
pub struct CountResult {
    /// Milliseconds the scanner spent reading the tree.
    pub reading_time_ms: u128,
    /// Milliseconds of indexing, averaged over the workers.
    pub indexing_time_ms: u128,
    /// Milliseconds for the whole run.
    pub total_time: u128,
    /// The merged global frequency table.
    pub counted_words: table::FrequencyTable,
}

} // verus!
