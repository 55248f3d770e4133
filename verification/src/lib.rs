//! Resumable decoding of length-prefixed, sector-padded log frames.
//!
//! The decoder is a state machine without any I/O of its own: the caller
//! performs the reads that the machine asks for and reports what the reader
//! answered. A read may be refused at any byte offset; the machine keeps what
//! has arrived and continues from there.

pub mod align;
pub mod frame;
pub mod model;
pub mod stream;
pub mod run;
