//! Streaming search for a byte pattern in binary data, with the matches
//! grouped into block-aligned context windows for a hex dump.
pub mod kmp;
pub mod search;
pub mod window;
pub mod pattern;
pub mod file;
pub mod render;
