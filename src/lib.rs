//! Integrity check of level-3 order book snapshots: selects the leading price
//! levels of each side, turns prices and quantities into exact integer digit
//! strings, and compares the CRC-32 of their concatenation with the checksum
//! that the feed published.

pub mod decimal;
pub mod text;
pub mod book;
pub mod levels;
pub mod checksum;
