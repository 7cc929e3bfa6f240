//! Line buffers for reading newline-terminated lines from a serial port.

pub mod arith;
pub mod linebuf;
