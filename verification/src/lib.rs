//! Merging a time-ordered browsing history into a sorted, line-oriented export.
//!
//! Two key-ordered sources of records, one freshly queried and one read back
//! from an earlier export, are interleaved by key and collapsed so that each
//! key keeps a single survivor. Keys are compared as plain byte strings.
//!
//! - [`bytes`]: the order of byte strings.
//! - [`entry`]: records, the buffer for one line, and the lines of an export.
//! - [`timefmt`], [`timeorder`]: timestamps as text, and their order.
//! - [`visit`]: the rows of the query and the lines written for them.
//! - [`dedup`]: the writer that keeps one record of each run of a key.
//! - [`merge`]: the step of the merge, and the merge of two sources.
//! - [`export`]: a whole run on bytes held in memory.
//! - [`sink`]: where the output goes and how a run is finished.
//! - [`laws`]: what holds of every merge.

pub mod bytes;
pub mod dedup;
pub mod entry;
pub mod export;
pub mod laws;
pub mod merge;
pub mod sink;
pub mod timefmt;
pub mod timeorder;
pub mod visit;
