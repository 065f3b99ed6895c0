//! Enumeration of Dyck words in increasing numeric order.
//!
//! A Dyck word of semilength `n` is a string of `n` ones and `n` zeros in
//! which no prefix holds more zeros than ones. Read as a binary number, most
//! significant digit first, each word is an integer; the words of one
//! semilength are counted by the Catalan numbers and can be walked from the
//! smallest to the largest with a fixed number of word operations per step.

pub mod bitwise;
pub mod catalan;
pub mod count;
pub mod enumeration;
pub mod successor;
pub mod sums;
pub mod text;
pub mod word;

pub use catalan::{catalan_number, checked_catalan_number, MAX_CATALAN_INDEX};
pub use enumeration::{Enumeration, MAX_SEMILENGTH};
pub use successor::next_dyck_word_bin;
pub use text::{binary_string, minimal_dyck_word, parse_binary_string, ParseError};
