//! A Nock interpreter: the noun data model, a tokenizer and parser for the
//! textual syntax, and an evaluator that reduces `[subject formula]` pairs.
pub mod errors;
pub mod nock;
pub mod parser;
pub mod tokenizer;
pub mod round_trip;
