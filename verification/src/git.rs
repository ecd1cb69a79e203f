//! What is listed of a git repository.

pub mod branch;
pub mod guarantees;
pub mod laws;
