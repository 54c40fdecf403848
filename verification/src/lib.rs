//! Ordered, steppable traversal of a fixed, sorted dictionary of words.
//!
//! The dictionary is a lexicographically sorted, duplicate-free table of
//! words supplied by the caller. A [`Word`] wraps one word known to be in
//! that table and supports the stepping operations a range-iteration
//! protocol needs: distance between two words, stepping forward and
//! stepping backward by a count of dictionary positions.

pub mod dict;
pub mod laws;
pub mod order;
pub mod word;

pub use dict::Dict;
pub use word::Word;
