pub mod bits;
pub mod rank_select;
pub mod util;
pub mod paren;
pub mod pioneer;
pub mod balanced_paren;
pub mod tree;
pub mod bp_tree;
pub mod dfuds_tree;
