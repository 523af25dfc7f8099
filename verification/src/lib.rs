//! tnote: per-window markdown notes for tmux and shell sessions.

pub mod text;
pub mod install;
pub mod cli;
pub mod tmux;
pub mod notes;
pub mod editor;
pub mod name_picker;
pub mod config;
pub mod upgrade;
pub mod render;
pub mod listing;
pub mod viewer;
