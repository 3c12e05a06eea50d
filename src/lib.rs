//! Q565: a lossless image codec for RGB565 pixels, with a verified encoder, block decoders
//! and a resumable streaming decoder.
use vstd::prelude::*;

pub mod alloc_api;
pub mod consts;
pub mod decode;
pub mod encode;
pub mod format;
pub mod roundtrip;
pub mod utils;

pub use decode::Q565DecodeContext;
pub use encode::Q565EncodeContext;

verus! {

/// The dimensions that an image header holds.
#[derive(Debug, Clone, Copy, PartialEq, Eq, Structural)]
pub struct HeaderInfo {
    pub width: u16,
    pub height: u16,
}

} // verus!
