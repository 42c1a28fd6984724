//! Ziff's logic: what changed between two sides of a Diff Mode, the hunks and
//! counts a user reads, the sidebar tree, and the small decisions around the Repo
//! list, branches and fetching.

pub mod text;
pub mod types;
pub mod hunks;
pub mod content;
pub mod order;
pub mod paths;
pub mod tree;
pub mod changes;
pub mod repos;
pub mod branches;
