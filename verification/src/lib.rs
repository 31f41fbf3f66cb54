//! Verified core of a Git-aware terminal workspace: diff building, Git
//! status parsing, terminal encoding and the workspace's state rules.
pub mod branch;
pub mod config;
pub mod diff;
pub mod keybindings;
pub mod pane_group;
pub mod status;
pub mod syntax;
pub mod terminal_input;
pub mod terminal_screen;
pub mod terminal_view;
pub mod text;
pub mod terminal_tabs;
pub mod text_input;
pub mod ui;
pub mod updater;
pub mod workspace;
