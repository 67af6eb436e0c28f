//! What the operations of the library are for: laws that relate inputs and results, in terms of
//! the characters, bytes and positions themselves.

pub mod books;
pub mod catalogs;
pub mod documents;
pub mod numerals;
pub mod paths;
pub mod queue;
pub mod requests;
pub mod words;
