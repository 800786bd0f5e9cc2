//! Building blocks of an in-place multi-way sample sort: a hole-based insertion
//! sort for small inputs, random sample selection, a splitter tree laid out level
//! by level, and a bucket classifier that descends that tree.

mod classify;
mod sample;
mod sort;
mod tree;

pub use classify::{
    bucket_of, classified, classify, classify_in_chunks, descent, is_classification,
    lemma_bucket_splits_sample, lemma_classification_unique, lemma_classified_concat,
    lemma_descent_level, CHUNK_SIZE,
};
pub use sample::{
    apply_sample_swaps, move_sample_to_front, swapped, swaps_applied, valid_draws,
};
pub use sort::{insertion_sort, sorted, stable_rearrangement};
pub use tree::{
    build_tree, create_classification_tree, full_tree_size, is_tree_of, node_slot, splitter_pos,
};
