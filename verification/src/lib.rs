//! Library of the `editor-91to9` explorer: directory listing rules, size
//! formatting, terminal escape sequences and the browsing/selection state
//! shared by the terminal and the windowed front ends.

pub mod browse;
pub mod cli;
pub mod dir_info;
pub mod format_tools;
pub mod gui;
pub mod terminal_tools;
pub mod terminal_ui_tools;
pub mod text;
pub mod tui;
