//! A Spanish dictionary service: words kept in memory under their lowercase
//! spelling and indexed by their transliteration, searched by key, by part of
//! a key, ignoring accents, at random, and by the arrangements of a set of
//! letters.
pub mod text;
pub mod env;
pub mod permute;
pub mod word;
pub mod word_map;
pub mod collection;
pub mod collection_laws;
pub mod search_laws;
pub mod numbers;
pub mod utils;
pub mod dto;
pub mod log;
pub mod config;
pub mod controller;
pub mod rae_raider;
