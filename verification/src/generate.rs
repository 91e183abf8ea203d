//! Text generated from a description.
pub mod device;
pub mod names;
