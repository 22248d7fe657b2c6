//! Directory aliases: a store that binds short names to directory paths, the
//! line-oriented file that keeps it, and the operations that read and change it.

pub mod format;
pub mod laws;
pub mod location;
pub mod node;
pub mod store;
