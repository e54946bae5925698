//! Persistent editor state, with its behaviour stated and proved.

pub mod editor;
pub mod file_state;
pub mod forest;
pub mod line_laws;
pub mod restore;
pub mod restore_laws;
pub mod saving;
pub mod session;
pub mod session_laws;
pub mod state_laws;
pub mod storage;
pub mod text;
pub mod tree_lines;
pub mod undo_laws;
pub mod undotree;
pub mod view_laws;
