//! The decisions behind a git graph viewer's input loop and reference lists.

pub mod event;
pub mod git;
pub mod guarantees;
pub mod laws;
pub mod order;
pub mod scroll;
pub mod session;
pub mod sort;
pub mod terminal;
