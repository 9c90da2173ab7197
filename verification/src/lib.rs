//! Linear-time sequence diffing after Paul Heckel's algorithm.
//!
//! [`diff`] compares an old and a new sequence of hashable items and returns the list of
//! changes (deletions, insertions, moves) that leads from the one to the other. Items
//! that occur in both sequences are paired by value and order of occurrence, so a
//! reordering shows up as moves and not as unrelated deletions and insertions.
//!
//! The mathematical meaning of the result is [`script::diff_spec`]: [`matching`] says
//! which positions belong together, [`script`] which changes follow from that. What holds
//! of every result is stated and proved in [`laws`] and [`replay`].
//!
//! The work is done in four steps, each a function with a contract of its own:
//! [`table::build_symbol_table`], [`matcher::match_positions`],
//! [`script::accumulate_deletes`] and [`script::generate_changes`].

pub mod change;
pub mod heckel;
pub mod laws;
pub mod matcher;
pub mod matching;
pub mod replay;
pub mod script;
pub mod table;

pub use crate::change::{Change, Delete, Insert, Move, Replace};
pub use crate::heckel::diff;
