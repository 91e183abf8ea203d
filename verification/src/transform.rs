//! The passes that consolidate a description.
pub mod arrays;
pub mod common;
pub mod describe;
pub mod rename;
pub mod select;
pub mod tally;
