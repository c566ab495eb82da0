//! A lossless encoder from raw RGB / RGBA pixel buffers to the QOI byte
//! format, with its behaviour stated as a specification and proved.

pub mod pixel;
pub mod format;
pub mod encoder;
pub mod decoder;
pub mod runs;
pub mod roundtrip;

pub use encoder::encode;
