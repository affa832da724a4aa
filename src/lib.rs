pub mod bits;
pub mod edge_list;
pub mod edge_set;
pub mod generate;
pub mod graph;
pub mod pair_index;
pub mod random;
pub mod sort;
pub mod timing;
pub mod tree;
