//! A small language model built from scratch, starting at its input boundary:
//! a byte tokenizer that turns text into token IDs and back, and the
//! construction of next-token training examples from those IDs.

pub mod data;
pub mod describe;
pub mod tokenizer;

pub use tokenizer::{ByteTokenizer, DecodeError, TokenId, Utf8Error};
