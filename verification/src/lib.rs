//! Word-frequency ranking and fixed-width text report rendering.
//!
//! The library splits a text into word tokens while counting character
//! classes, ranks the most frequent words with a count-then-alphabetical
//! tie-break, and renders the ranking as a bordered report whose every
//! line has exactly the requested character width.

pub mod counter;
pub mod display;
pub mod order;
pub mod word_counter;
