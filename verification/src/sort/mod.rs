pub mod quick;
pub mod select;
