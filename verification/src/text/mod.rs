//! Text-level building blocks of the object formats: scanning for
//! delimiters, character classes, decimal numbers and UTF-8.

pub mod decimal;
pub mod scan;
pub mod utf8;
