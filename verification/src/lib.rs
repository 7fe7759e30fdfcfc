//! A small modal text editor with a frecency database of visited files:
//! the editing state machine, the motions and edits, the syntax colouring,
//! the rendering of the screen and the file-memory database, all verified.

pub mod text;
pub mod syntax;
pub mod db;
pub mod editor;
pub mod screen;
pub mod checks;
pub mod laws;
