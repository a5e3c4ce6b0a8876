//! Letter Boxed solver: word validity against a four-sided puzzle and a
//! depth-bounded search for the shortest covering chain of words.

pub mod letters;
pub mod puzzle;
pub mod index;
pub mod search;
pub mod laws;
