//! A chunked binary pixel canvas with dirty-region tracking.
//!
//! The canvas partitions a large 2-D on/off pixel grid into fixed-size
//! square tiles ("chunks"), each bit-packed independently. Mutations go
//! through global coordinates; the canvas resolves them to a chunk and a
//! local coordinate, and records which chunks changed since the last
//! render pass in a dirty set that a renderer drains.

pub mod canvas;
pub mod chunk;
pub mod lexer;
