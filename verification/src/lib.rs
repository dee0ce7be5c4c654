//! Automatic multi-step decoding: decoders, scorers and a layered search.
pub mod text;
pub mod outside;
pub mod engine;
pub mod decoders;
pub mod scorer;
pub mod sort;
pub mod search;
pub mod chains;
pub mod wordlist;
pub mod worker;
