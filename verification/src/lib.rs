//! A sparse-rectangle video codec: an encoder that turns thresholded
//! grayscale frames into merged bounding rectangles, a little-endian binary
//! container for the rectangle stream, a cursor-style decoder, a playback
//! scheduler that paces decoding against an external clock, and a scaling
//! span renderer.

pub mod config;
pub mod container;
pub mod decoder;
pub mod encoder;
pub mod rect;
pub mod render;
pub mod sched;
