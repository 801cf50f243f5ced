pub mod bag;
pub mod longest_common_substring;
