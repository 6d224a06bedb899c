//! Per-key minimum / mean / maximum statistics over `key;value` records whose
//! values are fixed-point decimals with one fractional digit.
//!
//! - `parse`: the key/value split of a line and the fixed-point parser.
//! - `stats`: the accumulator kept for one key, and how two are joined.
//! - `table`: the hash table from key bytes to accumulators.
//! - `aggregate`: folding the records of a chunk into a table.
//! - `chunk`: cutting a stream of blocks into newline-terminated chunks.
//! - `merge`: joining tables key by key, and why the number of workers does
//!   not matter.
//! - `order`: byte-lexicographic order and the sorted listing of a table.
//! - `report`: the one-line text of a sorted listing.
//! - `pipeline`: per-worker totals, combining them, and the whole
//!   computation on one thread.
pub mod aggregate;
pub mod chunk;
pub mod merge;
pub mod order;
pub mod parse;
pub mod pipeline;
pub mod report;
pub mod stats;
pub mod table;
