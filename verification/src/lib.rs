//! Verified core logic of the Sherlock application launcher: markup
//! stripping and styling, URL detection, search scoring and result order,
//! intent tokenizing, the process search, timers, choice widgets, command
//! templates, title case, desktop-entry icons and message framing.

pub mod text;
pub mod url;
pub mod pango;
pub mod choice;
pub mod scoring;
pub mod process;
pub mod intent;
pub mod format;
pub mod render;
pub mod sort_key;
pub mod timer;
pub mod message;
pub mod config;
pub mod widgets;
pub mod desktop;
