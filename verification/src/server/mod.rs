//! What runs apart from the windows: it opens workspaces, keeps operations, and
//! talks to clients.

pub mod cache;
pub mod database;
pub mod git;
pub mod network;
pub mod session;
