//! The opcode tags of the Q565 stream.
use vstd::prelude::*;

verus! {

/// Re-emit a pixel from the color array: `00iiiiii`, with a 6-bit index.
pub const Q565_OP_INDEX: u8 = 0b0000_0000;

/// A pixel within a 2-bit difference (`-2..=1`, stored with a bias of 2) of the previous pixel in
/// each channel: `01rrggbb`. The pixel is not added to the color array.
pub const Q565_OP_DIFF: u8 = 0b0100_0000;

/// A pixel within a 5-bit green difference (`-16..=15`, bias 16) of the previous pixel, with red
/// and blue given as 4-bit differences to the green difference (`-8..=7`, bias 8):
/// `100ggggg rrrrbbbb`.
pub const Q565_OP_LUMA: u8 = 0b1000_0000;

/// A pixel within a small difference of a color-array entry: green `-4..=3` (bias 4), red and
/// blue `-2..=1` (bias 2), and the 6-bit index: `101gggrr bbiiiiii`.
pub const Q565_OP_DIFF_INDEXED: u8 = 0b1010_0000;

/// Repeats the previous pixel 1 to 62 times, stored with a bias of -1: `11nnnnnn`. The counts 63
/// and 64 are not runs: their bytes are the RGB565 and END tags.
pub const Q565_OP_RUN: u8 = 0b1100_0000;

/// A full pixel: the tag, then the RGB565 value, little-endian.
pub const Q565_OP_RGB565: u8 = 0b1111_1110;

/// Marks the end of the stream.
pub const Q565_OP_END: u8 = 0b1111_1111;

} // verus!
