pub mod order;
pub mod sorted;
pub mod string;
pub mod traversal;
