//! Conflict-free merge, dedup and diff for record datasets.
//!
//! The library provides the CRDT types `GCounter`, `PNCounter`,
//! `LWWRegister` and `ORSet`, a tabular merge of keyed JSON records,
//! exact and fuzzy deduplication, a structural diff and a deep JSON merge.

pub mod crdt;
pub mod orset;
pub mod json;
pub mod text;
pub mod merge;
pub mod json_merge;
pub mod diff;
pub mod dedup;
pub mod records;
pub mod input;

pub use crate::crdt::{GCounter, LWWRegister, PNCounter};
pub use crate::orset::ORSet;
pub use crate::merge::{merge, MergeOptions, Strategy};
pub use crate::dedup::{dedup, DedupResult, DuplicatePair};
pub use crate::diff::{diff, DiffResult, ModifiedRow, FieldChange};
pub use crate::json_merge::merge_json;
pub use crate::json::Json;
