//! A verified implementation of the QOI (Quite OK Image) lossless codec core:
//! a streaming encoder and decoder between RGBA pixel sequences and the
//! compact QOI byte stream, proved against a mathematical model of the wire
//! format, including a round-trip theorem.
use vstd::prelude::*;

pub mod buf_iter;
pub mod decode;
pub mod encode;
pub mod laws;
pub mod model;
pub mod util;

pub use buf_iter::BufIter;
pub use buf_iter::MutBufIter;
pub use util::ColorChannel;
pub use util::ColorSpace;
pub use util::Header;
pub use util::Pixel;

verus! {

/// Number of bytes in the framed header: magic, width, height, channels, colorspace.
pub const HEADER_SIZE: usize = 14;

/// Number of bytes in the end-of-stream marker.
pub const STREAM_END_SIZE: usize = 8;

/// Number of slots in the rolling index table of previously seen pixels.
pub const PREV_ARR_SIZE: usize = 64;

/// Full tag byte of an opcode carrying r, g and b payload bytes.
pub const OP_RGB: u8 = 0b11111110;

/// Full tag byte of an opcode carrying r, g, b and a payload bytes.
pub const OP_RGBA: u8 = 0b11111111;

/// Two-bit tag (in the top bits) of the index-table opcode.
pub const OP_INDEX: u8 = 0b00000000;

/// Two-bit tag of the small channel-delta opcode.
pub const OP_DIFF: u8 = 0b01000000;

/// Two-bit tag of the luma-centred delta opcode.
pub const OP_LUMA: u8 = 0b10000000;

/// Two-bit tag of the run opcode.
pub const OP_RUN: u8 = 0b11000000;

/// Bias added to each two-bit channel delta of an `OP_DIFF` byte.
pub const DIFF_BIAS: u8 = 2;

/// Bias added to the six-bit green delta of an `OP_LUMA` byte.
pub const LUMA_GREEN_BIAS: u8 = 32;

/// Bias added to the four-bit red and blue deltas of an `OP_LUMA` payload.
pub const LUMA_BIAS: u8 = 8;

} // verus!
