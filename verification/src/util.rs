//! Helpers that more than one component relies on.

pub mod crc;
