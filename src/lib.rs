//! Verified data structures and algorithms: a skip-list ordered map at the
//! core, with companion containers, sorting routines and shortest paths.

pub mod binary_dict_tree;
pub mod binary_search_tree;
pub mod graph;
pub mod linked_list;
pub mod priority_queue;
pub mod rng;
pub mod skip_list;
pub mod skip_list_map;
pub mod sort;
pub mod tree_array;
pub mod treap;
pub mod seg_tree;
