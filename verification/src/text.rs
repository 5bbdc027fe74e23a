//! Documents as JSON text.
//!
//! [`parse`] holds the grammar and the reader, [`print`] the layout and the
//! writer, [`lexer`] what both share below the level of values, and [`laws`]
//! what holds between the two, and [`cover`] what a table must hold. Numbers that integer arithmetic cannot
//! convert exactly go through a [`NumberTable`].

pub mod cover;
pub mod laws;
pub mod lexer;
pub mod parse;
pub mod print;
pub mod table;

pub use lexer::pending_numbers;
pub use table::NumberTable;
