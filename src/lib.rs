//! Reading, editing and writing the binary key/value tree in which Steam keeps
//! its non-Steam game shortcuts (`shortcuts.vdf`).
//!
//! The bytes are read by `tree` into a generic tree of maps, strings and
//! integers, which `shortcuts` turns into entries typed by the `schema`; the
//! entries are written back in the schema's order. `laws` states what holds
//! of reading and writing together.

pub mod cursor;
pub mod error;
pub mod laws;
pub mod lemmas;
pub mod reread;
pub mod schema;
pub mod shortcut;
pub mod shortcuts;
pub mod text;
pub mod tree;
