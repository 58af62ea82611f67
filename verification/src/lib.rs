//! Cheat-code decoding and ROM patching for NES, Super NES and Mega Drive images.

pub mod text;
pub mod number;
pub mod rom;
pub mod codes;
pub mod hashes;
pub mod patch;
pub mod cheatdb;
pub mod server;
pub mod report;
