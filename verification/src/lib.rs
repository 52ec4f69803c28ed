//! Verified core of a small decoder-only language-model toolkit: model
//! profiles, byte and subword tokenizers, the weight, optimizer-state and
//! training-metadata file formats, the random streams and batching of the
//! training loops, command-line options, and the word sets of experience
//! recall.

pub mod config;
pub mod tokenizer;
pub mod amd_tokenizer;
pub mod table_file;
pub mod occurrences;
pub mod piece_sort;
pub mod piece_stats;
pub mod lex;
pub mod bytes;
pub mod text;
pub mod decimal;
pub mod lines;
pub mod le;
pub mod checkpoint;
pub mod optim_state;
pub mod train_meta;
pub mod sampling;
pub mod batches;
pub mod args;
pub mod memory;
pub mod resume;
