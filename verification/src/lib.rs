//! A grouped, variable-order Markov chain model over a text corpus.
//!
//! Documents are tokenized into normalized words; every distinct word is
//! assigned a chain *order* derived from its global frequency rank; one
//! persistent successor-set table per order is trained from the corpus; and
//! new text is generated by walking those tables with randomized seeding and
//! order fallback.

pub mod codec;
pub mod docs;
pub mod error;
pub mod freq;
pub mod generate;
pub mod store;
pub mod train;
pub mod token;
