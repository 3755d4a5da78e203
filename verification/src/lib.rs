//! Mnemonic key chords for the terminal: a small configuration language of
//! `group` and `keybind` statements, the menu tree built from it, the
//! decisions of the interactive chooser, and the shell integration scripts.

pub mod text;
pub mod config;
pub mod menu;
pub mod shell;
pub mod ui;
