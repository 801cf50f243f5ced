pub mod dynamic;
pub mod search;
pub mod sort;
pub mod tree;
pub mod utils;
