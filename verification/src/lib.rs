//! A small terminal-UI runtime: geometry and colour types, a decoder for
//! terminal input, a diffing display buffer with alpha compositing, and the
//! ordered stack of terminal modes.
//!
//! Nothing in this crate reads from a terminal or writes to one. Functions
//! that would write hand out the bytes to send, and functions that would
//! read take the bytes that were read:
//!
//! - [`state`] holds positions, extents, pixels and the layers of a picture;
//! - [`ansi`] holds the escape sequences and a writer that collects them;
//! - [`draw`] holds cells and the display buffer;
//! - [`input`] decodes what the terminal sends;
//! - [`term`] keeps the terminal's modes in order.

pub mod ansi;
pub mod draw;
pub mod input;
pub mod state;
pub mod term;
