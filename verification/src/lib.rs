//! Core of a line-oriented collaborative text editor: the document buffer,
//! conversions between flat character offsets and (line, column) positions,
//! cursor and viewport arithmetic, the keystroke state machine, and the
//! patch wire codec used to synchronise two mutators of one document.

pub mod buffer;
pub mod editor;
pub mod keys;
pub mod position;
pub mod wire;
