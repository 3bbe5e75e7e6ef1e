//! A JSON tokenizer over UTF-8 byte input.
//!
//! The crate is split into two layers. The input readers under
//! [`input_reader`] turn a byte buffer into a character stream with bounded
//! lookahead: [`memory_reader::MemoryReader`] decodes the whole input once,
//! while [`buffered_reader::BufferedReader`] keeps only a fixed-capacity
//! window of decoded characters. Both satisfy the same `peek`/`consume`
//! contract, so the [`lexer::Lexer`] is written once against that contract
//! and provably behaves the same over either reader.

pub mod buffered_reader;
pub mod grammar;
pub mod input_reader;
pub mod lexer;
pub mod memory_reader;
pub mod utf8;
