//! Backup and restore of a coordination service's node tree: the walk that
//! writes a subtree into archive entries, the replay that recreates nodes
//! from them, the recursive delete, and the path encoding and exclusion
//! rules that they share. Store and archive I/O stay with the caller, which
//! feeds each walk what it fetched.

/// Node paths to archive entry names and back.
pub mod codec;
/// Recursive delete, children before their parent.
pub mod delete;
/// The existence check and the dump walk.
pub mod dump;
/// Exclusion and root selection by exact match or raw prefix.
pub mod filter;
/// Replaying archive entries into a store.
pub mod restore;
/// A whole dump over a model tree, and what it guarantees.
pub mod walk;
