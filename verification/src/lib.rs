//! A verified word-guessing game engine: per-letter scoring with the
//! classic duplicate-letter rule, single-game lifecycle tracking,
//! a registry of concurrently-live games, and a persistence codec
//! that round-trips the registry losslessly.
pub mod ext;
pub mod game;
pub mod registry;
pub mod storage;
pub mod word;
pub mod words;
