//! Floaty Todo core: the Markdown task grammar, the line-preserving file
//! edits, the undo/redo history engine and the configuration rules behind
//! the desktop to-do viewer.

pub mod assoc;
pub mod config;
pub mod error;
pub mod history;
pub mod hotkeys;
pub mod hub;
pub mod parser;
pub mod path;
pub mod readback;
pub mod registry;
pub mod shell;
pub mod storage;
pub mod text;
pub mod types;
pub mod watcher;
