//! Streaming decompression of Unix `compress` (`.Z`) data, with the
//! adaptive LZW decoder and its bit reader verified against their models,
//! and a two-dimensional view into slices.
pub mod bits;
pub mod lzw;
pub mod view2d;
