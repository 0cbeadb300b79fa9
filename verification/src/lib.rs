//! The core of a terminal crossword-grid editor: the grid of blocked and
//! open cells, the keystroke state machine that edits it and moves the
//! cursor, and the codec that renders a grid to bytes and parses it back.
//! Terminal drawing, raw input capture and file access live with the host.

pub mod codec;
pub mod consts;
pub mod edit;
pub mod types;
