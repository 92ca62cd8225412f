//! The IHDR payload for the fixed profile: 8-bit truecolour with alpha.
use vstd::prelude::*;
use crate::chunk::{be32, be32_bytes};

verus! {

/// Bits per channel.
pub const BIT_DEPTH: u8 = 8;
/// Colour type: truecolour with alpha.
pub const COLOR_TYPE_RGBA: u8 = 6;
/// Compression method: deflate.
pub const COMPRESSION_DEFLATE: u8 = 0;
/// Filter method: adaptive filtering with the five basic filter types.
pub const FILTER_ADAPTIVE: u8 = 0;
/// Interlace method: none.
pub const INTERLACE_NONE: u8 = 0;

/// The 13 bytes of an IHDR payload: width and height big-endian, then bit
/// depth 8, colour type 6, and compression, filter and interlace methods 0.
pub open spec fn ihdr_payload(w: u32, h: u32) -> Seq<u8> {
    be32(w) + be32(h) + seq![
        BIT_DEPTH,
        COLOR_TYPE_RGBA,
        COMPRESSION_DEFLATE,
        FILTER_ADAPTIVE,
        INTERLACE_NONE,
    ]
}

/// The IHDR payload of an image `width` by `height` pixels.
pub fn encode_image_metadata(width: i32, height: i32) -> (r: Vec<u8>)
    requires
        width > 0,
        height > 0,
    ensures
        r@ == ihdr_payload(width as u32, height as u32),
        r@.len() == 13,
        r@.subrange(8, 13) == seq![8u8, 6u8, 0u8, 0u8, 0u8],
{
    let mut image_data = be32_bytes(width as u32);
    let mut hex_height = be32_bytes(height as u32);
    image_data.append(&mut hex_height);
    image_data.push(BIT_DEPTH);
    image_data.push(COLOR_TYPE_RGBA);
    image_data.push(COMPRESSION_DEFLATE);
    image_data.push(FILTER_ADAPTIVE);
    image_data.push(INTERLACE_NONE);
    assert(image_data@ =~= ihdr_payload(width as u32, height as u32));
    assert(image_data@.subrange(8, 13) =~= seq![8u8, 6u8, 0u8, 0u8, 0u8]);
    image_data
}

} // verus!
