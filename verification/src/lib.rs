pub mod assoc;
pub mod text;
pub mod config;
pub mod audio;
pub mod catalog;
pub mod autostart;
pub mod runtime;
pub mod icon;
pub mod hotkeys;
pub mod places;
pub mod migrate;
