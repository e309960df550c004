//! Reading, editing and writing Godot PCK archives, and the mod loading
//! rules of the Webfishing macOS installer.

pub mod bytes;
pub mod reader;
pub mod text;
pub mod pck;
pub mod manifest;
pub mod mods;
pub mod resources;
pub mod diff_text;
pub mod diff;
pub mod borderless;
pub mod patches;
pub mod install;
