//! Hex-dump formatting: renders byte chunks as aligned hexadecimal and
//! character columns.

pub mod ascii;
pub mod config;
pub mod dump;
pub mod hex;
pub mod text;
