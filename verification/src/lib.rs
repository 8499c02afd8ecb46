//! A scored directory index for a shell "jump" helper.
//!
//! The index maps canonical directory paths to visit scores, answers
//! case-insensitive substring queries with score-descending ranking and
//! cyclic pagination, and round-trips through a line-oriented text format.

pub mod fsio;
pub mod index;
pub mod laws;
pub mod text;

pub use index::Error;
pub use index::Index;
pub use index::IndexEntry;
