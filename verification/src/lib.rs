//! The verified core of a terminal spreadsheet: cell addressing, cell
//! contents and reference translation, the CSV format, the grid with its
//! history, the clipboard, the screen window and the modal key handling.
pub mod text;
pub mod refs;
pub mod csv;
pub mod cell;
pub mod grid;
pub mod clipboard;
pub mod vars;
pub mod screen;
pub mod message;
pub mod mode;
pub mod session;
pub mod squares;


