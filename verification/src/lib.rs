//! Decoder for level data of a tile-based game: a sequential byte reader,
//! the two decompressors that planes are stored under, the directory and
//! header parser, and the loader that puts them together.

pub mod error;
pub mod util;
pub mod carmack;
pub mod rlew;
pub mod map;
