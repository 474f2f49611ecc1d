//! Build-time support for embedding a directory tree as a lookup table from
//! relative path to file content.
//!
//! The library holds the decisions: the depth-first walk over pending entries,
//! which walked entries become table entries and under which key, and the
//! table itself. Listing directories and reading metadata happen outside and
//! are handed in as plain values.
pub mod keys;
pub mod laws;
pub mod order;
pub mod plan;
pub mod table;
pub mod walker;

pub use keys::relative_key;
pub use plan::{plan_embedding, BuildError, PlanEntry, Walked};
pub use table::EmbeddingTable;
pub use walker::{needs_listing, DirIter, EntryKind};
