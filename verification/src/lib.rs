use vstd::prelude::*;

mod config;
mod datetime;
mod json_diff;
mod json_merge;
mod misc;
mod tree;

pub use config::json_parse;
pub use config::load;
pub use config::resolved;
pub use config::ConfigError;
pub use datetime::unix_ms_to_utc;
pub use datetime::UtcInstant;
pub use json_diff::diff;
pub use json_diff::diffed;
pub use json_diff::lemma_diff_merge_round_trip_tree;
pub use json_diff::lemma_diff_wf_tree;
pub use json_merge::lemma_merge_idempotent;
pub use json_merge::lemma_merged_wf;
pub use json_merge::lemma_null_tombstone;
pub use json_merge::lemma_wholesale_replace;
pub use json_merge::merge;
pub use json_merge::merge_value;
pub use json_merge::merged;
pub use misc::relative2absolute;
pub use misc::PathError;
pub use tree::Tree;
pub use tree::TreeValue;

verus! {

} // verus!
