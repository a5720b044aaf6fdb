//! Emoji search, usage ranking and trigger detection for a desktop emoji picker.

pub mod emoji;
pub mod hotkey;
pub mod ranking;
pub mod str_map;
pub mod text;
pub mod usage;
