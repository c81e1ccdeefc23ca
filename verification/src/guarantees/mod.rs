//! What the library is for, stated of its results alone: laws that tie what goes
//! in to what comes out, with the bytes, ranges and orders that matter written
//! out.

pub mod added_tokens;
pub mod bert_text;
pub mod bert_words;
pub mod bounded;
pub mod characters;
pub mod decoding;
pub mod files;
pub mod gpt2;
pub mod kinds;
pub mod loading;
pub mod merge_order;
pub mod messages;
pub mod newer_data;
pub mod pipeline;
pub mod resuming;
pub mod runs;
pub mod sentence_pieces;
pub mod settings;
pub mod stage1;
pub mod training;
pub mod units;
pub mod views;
pub mod vocabulary;
pub mod words;
