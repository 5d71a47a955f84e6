//! Shikake (仕掛け): a plugin loader and lifecycle manager for Neovim.
//!
//! The crate decides; the editor acts. It resolves the order in which plugins
//! load, words the ex-commands that load, unload and reload them, and keeps the
//! status of every plugin. Commands are handed out as text, and what the editor
//! answered is handed back in.

pub mod discover;
pub mod graph;
pub mod load_time;
pub mod loader;
pub mod plugin;
pub mod reload;
pub mod resolve;
pub mod search;
pub mod state;
pub mod text;
mod topology;
