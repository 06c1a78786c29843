//! Byte-level byte-pair-encoding tokenizer.
//!
//! A merge table is trained from a token sequence by repeatedly replacing the
//! most frequent adjacent pair with a fresh identifier. The table expands into
//! a vocabulary from identifiers to byte payloads, encodes new text into
//! identifiers, and decodes identifiers back into text.

pub mod encode;
pub mod merge;
pub mod roundtrip;
pub mod stats;
pub mod table;
pub mod text;
pub mod train;
pub mod vocab;

pub use encode::{encode, get_pair_with_lowest_value};
pub use merge::merge;
pub use stats::{get_most_frequent_pair, get_stats, PairStats};
pub use text::convert_to_bytes;
pub use train::{calculate_merges, calculate_merges_default};
pub use vocab::{covers_ids, decode, generate_and_decode, generate_vocab, is_well_ordered};
