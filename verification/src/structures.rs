pub mod ann_tree;
pub mod dense_vector_list;
pub mod filters;
pub mod inverted_index;
pub mod metadata_index;
pub mod namespace_state;
pub mod sorted_lists;
pub mod top_k;
pub mod tree;
