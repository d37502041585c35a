//! The core of a collaborative text editor.

pub mod app;
pub mod buffer;
pub mod change_observer;
pub mod error;
pub mod found_files;
pub mod fs;
pub mod fuzzy;
pub mod git;
pub mod movement;
pub mod network;
pub mod notify_cell;
pub mod path_search;
pub mod point;
pub mod project;
pub mod sequences;
pub mod server;
pub mod storage;
pub mod strings;
pub mod text;
pub mod usize_map;
pub mod utf16;
pub mod views;
pub mod weak_set;
pub mod work_tree;
pub mod workspace;
