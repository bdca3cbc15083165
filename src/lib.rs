//! The editing core of a terminal text editor: documents as lines with a
//! caret, a selection and a soft-wrapped viewport; indentation-aware edits;
//! key bindings; and an editor state that routes commands to the active
//! document or to a one-line prompt over it.
pub mod text;
pub mod indent;
pub mod config;
pub mod terminal;
pub mod file;
pub mod document;
pub mod keybinds;
pub mod state;
