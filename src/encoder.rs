//! The PNG stream: signature, then the IHDR, IDAT and IEND chunks.
use vstd::prelude::*;
use vstd::arithmetic::div_mod::{lemma_div_multiples_vanish, lemma_mod_multiples_basic};
use crate::error::PngError;
use crate::chunk::{
    be32, be32_value, chunk_bytes, crc32_of, encode_image_chunk, lemma_be32_value,
    lemma_parse_chunk_bytes, parse_chunks, MAX_CHUNK_LEN,
};
use crate::header::{encode_image_metadata, ihdr_payload};
use crate::scanline::{
    decode_scanlines, encode_image_pixels, lemma_decode_scanlines, lemma_scanline_layout,
    scanlines, zlib_of, RGBA,
};

verus! {

/// The eight bytes every PNG stream starts with.
pub open spec fn png_signature() -> Seq<u8> {
    seq![0x89u8, 0x50u8, 0x4Eu8, 0x47u8, 0x0Du8, 0x0Au8, 0x1Au8, 0x0Au8]
}

/// The type tag "IHDR".
pub open spec fn ihdr_tag() -> Seq<u8> {
    seq![0x49u8, 0x48u8, 0x44u8, 0x52u8]
}

/// The type tag "IDAT".
pub open spec fn idat_tag() -> Seq<u8> {
    seq![0x49u8, 0x44u8, 0x41u8, 0x54u8]
}

/// The type tag "IEND".
pub open spec fn iend_tag() -> Seq<u8> {
    seq![0x49u8, 0x45u8, 0x4Eu8, 0x44u8]
}

/// The IDAT payload of a raster: its scanlines as a zlib stream.
pub open spec fn idat_payload(pixels: Seq<RGBA>, w: nat, h: nat) -> Seq<u8> {
    zlib_of(scanlines(pixels, w, h))
}

/// The PNG stream of a raster `w` by `h` pixels.
pub open spec fn png_bytes(pixels: Seq<RGBA>, w: nat, h: nat) -> Seq<u8> {
    png_signature() + chunk_bytes(ihdr_tag(), ihdr_payload(w as u32, h as u32)) + chunk_bytes(
        idat_tag(),
        idat_payload(pixels, w, h),
    ) + chunk_bytes(iend_tag(), Seq::empty())
}

/// What encoding `pixels` as an image `w` by `h` gives: the first failure
/// that applies, else the PNG stream.
pub open spec fn encode_result(pixels: Seq<RGBA>, w: int, h: int) -> Result<Seq<u8>, PngError> {
    if w <= 0 || h <= 0 {
        Err(PngError::InvalidDimensions)
    } else if pixels.len() != w * h {
        Err(PngError::PixelCountMismatch)
    } else if idat_payload(pixels, w as nat, h as nat).len() > MAX_CHUNK_LEN {
        Err(PngError::PayloadTooLarge)
    } else {
        Ok(png_bytes(pixels, w as nat, h as nat))
    }
}

/// The value seen by a caller of `create_image`: the bytes of the stream, or
/// the error.
pub open spec fn result_bytes(r: Result<Vec<u8>, PngError>) -> Result<Seq<u8>, PngError> {
    match r {
        Ok(v) => Ok(v@),
        Err(e) => Err(e),
    }
}

/// The chunks a PNG stream of a raster holds, as `parse_chunks` reads them
/// back: tag, payload and stored CRC of IHDR, IDAT and IEND.
pub open spec fn png_chunks(pixels: Seq<RGBA>, w: nat, h: nat) -> Seq<(Seq<u8>, Seq<u8>, int)> {
    seq![
        (ihdr_tag(), ihdr_payload(w as u32, h as u32), crc32_of(ihdr_tag() + ihdr_payload(w as u32, h as u32)) as int),
        (idat_tag(), idat_payload(pixels, w, h), crc32_of(idat_tag() + idat_payload(pixels, w, h)) as int),
        (iend_tag(), Seq::<u8>::empty(), crc32_of(iend_tag() + Seq::<u8>::empty()) as int),
    ]
}

/// An encoded stream starts with the PNG signature, and what follows it
/// reads back as exactly three chunks, IHDR, IDAT and IEND in that order,
/// with no bytes left over.
pub proof fn lemma_png_layout(pixels: Seq<RGBA>, w: i32, h: i32)
    requires
        encode_result(pixels, w as int, h as int) is Ok,
    ensures
        encode_result(pixels, w as int, h as int) == Ok::<Seq<u8>, PngError>(
            png_bytes(pixels, w as nat, h as nat),
        ),
        png_bytes(pixels, w as nat, h as nat).subrange(0, 8) == png_signature(),
        parse_chunks(
            png_bytes(pixels, w as nat, h as nat).subrange(
                8,
                png_bytes(pixels, w as nat, h as nat).len() as int,
            ),
        ) == Some(png_chunks(pixels, w as nat, h as nat)),
{
    let wn = w as nat;
    let hn = h as nat;
    let ihdr = ihdr_payload(w as u32, h as u32);
    let idat = idat_payload(pixels, wn, hn);
    let empty = Seq::<u8>::empty();
    let c3 = chunk_bytes(iend_tag(), empty);
    let c2 = chunk_bytes(idat_tag(), idat);
    let c1 = chunk_bytes(ihdr_tag(), ihdr);
    assert(parse_chunks(empty) == Some(Seq::<(Seq<u8>, Seq<u8>, int)>::empty()));
    lemma_parse_chunk_bytes(iend_tag(), empty, empty);
    assert(c3 + empty =~= c3);
    lemma_parse_chunk_bytes(idat_tag(), idat, c3);
    lemma_parse_chunk_bytes(ihdr_tag(), ihdr, c2 + c3);
    let s = png_bytes(pixels, wn, hn);
    assert(s.subrange(0, 8) =~= png_signature());
    assert(s.subrange(8, s.len() as int) =~= c1 + (c2 + c3));
    assert(parse_chunks(c1 + (c2 + c3)).unwrap() =~= png_chunks(pixels, wn, hn));
}

/// Every chunk of an encoded stream stores the CRC-32 of its tag and
/// payload; the length field of each gives its payload (IEND's is empty);
/// the IHDR payload is 13 bytes, the last five being 8, 6, 0, 0, 0.
pub proof fn lemma_png_chunk_fields(pixels: Seq<RGBA>, w: i32, h: i32)
    requires
        encode_result(pixels, w as int, h as int) is Ok,
    ensures
        forall|i: int|
            0 <= i < png_chunks(pixels, w as nat, h as nat).len() ==> #[trigger] png_chunks(
                pixels,
                w as nat,
                h as nat,
            )[i].2 == crc32_of(
                png_chunks(pixels, w as nat, h as nat)[i].0 + png_chunks(
                    pixels,
                    w as nat,
                    h as nat,
                )[i].1,
            ),
        png_chunks(pixels, w as nat, h as nat)[0].1.len() == 13,
        png_chunks(pixels, w as nat, h as nat)[0].1.subrange(8, 13) == seq![8u8, 6u8, 0u8, 0u8, 0u8],
        png_chunks(pixels, w as nat, h as nat)[2].1.len() == 0,
{
    let ihdr = ihdr_payload(w as u32, h as u32);
    lemma_be32_value(w as u32);
    assert(ihdr.subrange(8, 13) =~= seq![8u8, 6u8, 0u8, 0u8, 0u8]);
}

/// A reader of an encoded stream recovers the image: the IHDR payload holds
/// the width and the height, and the IDAT payload is the zlib stream of a
/// scanline buffer of `h` rows of `1 + 4 * w` bytes, each starting with
/// filter byte 0, from which `decode_scanlines` gives back the pixels.
pub proof fn lemma_png_decodes(pixels: Seq<RGBA>, w: i32, h: i32)
    requires
        encode_result(pixels, w as int, h as int) is Ok,
    ensures
        be32_value(png_chunks(pixels, w as nat, h as nat)[0].1.subrange(0, 4)) == w,
        be32_value(png_chunks(pixels, w as nat, h as nat)[0].1.subrange(4, 8)) == h,
        png_chunks(pixels, w as nat, h as nat)[1].1 == zlib_of(scanlines(pixels, w as nat, h as nat)),
        scanlines(pixels, w as nat, h as nat).len() == h * (1 + 4 * w),
        forall|r: int|
            0 <= r < h ==> #[trigger] scanlines(pixels, w as nat, h as nat)[r * (1 + 4 * w)] == 0,
        decode_scanlines(scanlines(pixels, w as nat, h as nat), w as nat, h as nat) == pixels,
{
    let ihdr = ihdr_payload(w as u32, h as u32);
    lemma_be32_value(w as u32);
    lemma_be32_value(h as u32);
    assert(ihdr.subrange(0, 4) =~= be32(w as u32));
    assert(ihdr.subrange(4, 8) =~= be32(h as u32));
    lemma_scanline_layout(pixels, w as nat, h as nat);
    lemma_decode_scanlines(pixels, w as nat, h as nat);
}

/// Encoding is a function of its arguments alone: two calls on the same
/// pixels, width and height give the same bytes, or the same error.
pub proof fn lemma_encode_deterministic(
    pixels: Seq<RGBA>,
    w: i32,
    h: i32,
    r1: Result<Vec<u8>, PngError>,
    r2: Result<Vec<u8>, PngError>,
)
    requires
        result_bytes(r1) == encode_result(pixels, w as int, h as int),
        result_bytes(r2) == encode_result(pixels, w as int, h as int),
    ensures
        result_bytes(r1) == result_bytes(r2),
{
}

/// A raster of `w * h` pixels, `w` per row, has `h` whole rows.
proof fn lemma_rows_of(len: nat, w: nat, h: nat)
    requires
        len == w * h,
        w > 0,
    ensures
        len / w == h,
        len % w == 0,
{
    lemma_div_multiples_vanish(h as int, w as int);
    lemma_mod_multiples_basic(h as int, w as int);
    assert(w * h == h * w) by (nonlinear_arith);
}

/// Encodes `data`, `width` pixels per row and `height` rows, top row first,
/// as a PNG stream.
pub fn create_image(data: Vec<RGBA>, width: i32, height: i32) -> (r: Result<Vec<u8>, PngError>)
    ensures
        result_bytes(r) == encode_result(data@, width as int, height as int),
{
    if width <= 0 || height <= 0 {
        return Err(PngError::InvalidDimensions);
    }
    assert((width as u64) * (height as u64) <= 0x7fff_ffff * 0x7fff_ffff) by (nonlinear_arith)
        requires 0 < width <= 0x7fff_ffff, 0 < height <= 0x7fff_ffff;
    let count = (width as u64) * (height as u64);
    if data.len() as u64 != count {
        return Err(PngError::PixelCountMismatch);
    }
    let ghost w = width as int;
    let ghost h = height as int;
    proof {
        lemma_rows_of(data@.len(), w as nat, h as nat);
    }
    let mut image_data: Vec<u8> = vec![0x89u8, 0x50, 0x4E, 0x47, 0x0D, 0x0A, 0x1A, 0x0A];

    let mut metadata = encode_image_metadata(width, height);
    let ihdr = encode_image_chunk(vec![0x49u8, 0x48, 0x44, 0x52].as_slice(), &mut metadata);
    let mut ihdr = match ihdr {
        Ok(c) => c,
        Err(e) => return Err(e),
    };
    image_data.append(&mut ihdr);

    let mut pixels = encode_image_pixels(data, width);
    let idat = encode_image_chunk(vec![0x49u8, 0x44, 0x41, 0x54].as_slice(), &mut pixels);
    let mut idat = match idat {
        Ok(c) => c,
        Err(e) => return Err(e),
    };
    image_data.append(&mut idat);

    let mut empty: Vec<u8> = Vec::new();
    let iend = encode_image_chunk(vec![0x49u8, 0x45, 0x4E, 0x44].as_slice(), &mut empty);
    let mut iend = match iend {
        Ok(c) => c,
        Err(e) => return Err(e),
    };
    image_data.append(&mut iend);
    assert(image_data@ =~= png_bytes(data@, w as nat, h as nat));
    Ok(image_data)
}

} // verus!
