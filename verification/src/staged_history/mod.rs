//! Proof, from Git history, that the grace of staged soft debt is spent.

pub mod changes;
pub mod changes_laws;
pub mod edits;
pub mod evidence;
pub mod laws;
pub mod walk;
pub mod walk_laws;
