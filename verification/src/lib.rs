//! Backend logic of a terminal emulator: an escape-sequence parser, a colour
//! range tracker and the terminal state model that ties them together.

pub mod ansi;
pub mod color;
pub mod laws;
pub mod parser;
pub mod ranges;
pub mod terminal;
