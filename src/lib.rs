//! A chunked, lossless byte-stream codec: delta and run-length preprocessing,
//! zlib compression per chunk, and a length-prefixed container that keeps the
//! chunks independently decodable.
pub mod delta;
pub mod error;
pub mod rle;
pub mod codec;
pub mod orchestrator;
pub mod container;
