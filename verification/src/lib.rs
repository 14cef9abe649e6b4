//! Pinyin-to-hanzi input method engine: converts ASCII pinyin (optionally
//! with tone digits and spaces) into Chinese characters by greedy
//! longest-match lookup against a precomputed static dictionary, with
//! interactive disambiguation of homophone choices via trailing digits or
//! spaces. Designed for bounded, panic-free operation: every buffer has a
//! fixed capacity and overflow degrades to defined truncation.

pub mod api;
pub mod constants;
pub mod dialects;
pub mod lex;
pub mod m3hash;
pub mod vocab;
