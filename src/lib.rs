//! Term-frequency inverted indexes (unigram and bigram) over a corpus of
//! tab-delimited documents.
//!
//! The library holds the whole computation: decoding and tokenizing one
//! document, building its n-grams, the round-robin partition of the corpus
//! over a bounded pool of workers, the reduction of (term, document) pairs
//! into a nested frequency table, and the text layout of the finished index.
//! Threads, channels and files belong to the program that drives it.
pub mod distribute;
pub mod document;
pub mod index;
pub mod laws;
pub mod ngram;
pub mod text;

pub use distribute::{distribute, round_robin, worker_count, MAX_WORKERS};
pub use document::{parse_document, tokenize, Document, ParseError};
pub use index::{build_index, InvertedIndex};
pub use ngram::{emit, emit_all, join_tokens, process_document, Carry, NgramMode, Occurrence};
pub use text::normalize_token;
