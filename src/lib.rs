//! Codec for Bethesda-style plugin containers and their localized string
//! tables, with the small editing helpers built around it.

pub mod actions;
pub mod batch;
pub mod dictionary;
pub mod diff;
pub mod encoding;
pub mod extract;
pub mod heuristics;
pub mod history;
pub mod hybrid;
pub mod import_export;
pub mod plugin;
pub mod plugin_binary;
pub mod prefs;
pub mod rows;
pub mod search;
pub mod strings;
pub mod text;
pub mod tm;
pub mod ui_state;
pub mod undo;
pub mod validation;
pub mod workspace;
pub mod zlib;
