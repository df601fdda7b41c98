//! Buffering core of a streaming audio processor: a fixed-capacity sample
//! accumulator, a feedback delay ring, a double-buffered frame capture and
//! the selection of analysis windows.

pub mod accumulator;
pub mod delay;
pub mod double_buffer;
pub mod window;
