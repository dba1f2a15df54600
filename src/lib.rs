//! Runestone field extraction and encoding, the spaced rune name text codec,
//! and locating satoshis in a wallet's outputs.

pub mod varint;
pub mod tag;
pub mod rune;
pub mod spaced_rune;
pub mod sats;
