//! Consolidation of register descriptions: deciding whether two entities may
//! be merged, selecting identifiers by pattern, rewriting references after a
//! merge, inferring array shapes and carrying variant documentation over to
//! fields.
pub mod generate;
pub mod idset;
pub mod ir;
pub mod pattern;
pub mod seqs;
pub mod text;
pub mod transform;
