//! A two-stage text index over named map features: a sorted vocabulary of
//! case-folded words with 1-based identifiers, and an approximate-membership
//! filter over the fingerprints of tokenized names.
//!
//! The first pass gathers the names of the records, splits them at
//! whitespace, folds the case of each word and lists the distinct words in
//! ascending order; the list becomes an ordered map from word to position.
//! The second pass turns each name into the sequence of its words'
//! identifiers, hashes the little-endian encoding of each distinct sequence
//! and builds an xor filter over the hashes.
//!
//! Case is folded in both passes, so that a name is tokenized with the words
//! that it gave to the vocabulary.

pub mod encoding;
pub mod filter;
pub mod index;
pub mod order;
pub mod phrase;
pub mod pipeline;
pub mod record;
pub mod sorted_set;
pub mod text;
pub mod vocab;

pub use filter::{
    fingerprint, EncodeError, FilterError, PhraseFilter, TooManyFingerprints, MAX_FINGERPRINTS,
};
pub use index::{try_write_vocab_fst, write_vocab_fst, OutOfOrder, Vocabulary};
pub use phrase::{
    build_phrase_filter, get_phrase_list, phrase_fingerprints, process_name, try_get_phrase_list,
    try_process_name, write_phrase_filter, PhraseAggregator, UnknownName, UnknownWord,
};
pub use pipeline::{build_index, TextIndex};
pub use record::{
    process_dense_nodes, process_nodes_and_ways, process_relations, record_name, Record,
    RecordKind, Tag,
};
pub use vocab::{build_vocabulary, get_word_list, WordAggregator};
