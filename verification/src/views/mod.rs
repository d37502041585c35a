//! What is shown in a window.

pub mod actions;
pub mod buffer;
pub mod editor;
pub mod edits;
pub mod frame;
pub mod motion;
pub mod typing;
pub mod workspace;
