//! Decoder for `AsciiCoder.DecodeFiles` archives: a marker hidden in
//! arbitrary text, a manifest of file names, one ASCII-armored unit per
//! file, and an optional adaptive context-hash compression layer.

pub mod error;
pub mod varint;
pub mod header;
pub mod armor;
pub mod decompress;
pub mod archive;
