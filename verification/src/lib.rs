//! Reordering the keys of JSON documents: sorted, shuffled, or as written.
pub mod json;
pub mod number;
pub mod sorted_object;
pub mod reorder;
pub mod ordered_map;
pub mod random;
pub mod jsonl;
pub mod compress;
pub mod paths;
pub mod digits;
pub mod transaction;
pub mod pipeline;
pub mod json_text;
