//! Pixels and the filtered scanline buffer that the IDAT chunk compresses.
use vstd::prelude::*;
use vstd::arithmetic::div_mod::{lemma_fundamental_div_mod, lemma_mod_bound};
use vstd::arithmetic::div_mod::lemma_div_pos_is_pos;
use deflate::deflate_bytes_zlib;

verus! {

/// One 8-bit RGBA sample.
#[derive(Debug, Clone, Copy, PartialEq, Eq, Structural)]
pub struct RGBA {
    pub red: u8,
    pub blue: u8,
    pub green: u8,
    pub alpha: u8,
}

/// The four bytes a pixel occupies in a scanline, in the order red, blue,
/// green, alpha. This order is part of the format this library writes: a
/// reader that follows colour type 6 takes the second and third bytes as
/// green and blue, so to it those two channels appear swapped.
pub open spec fn pixel_bytes(p: RGBA) -> Seq<u8> {
    seq![p.red, p.blue, p.green, p.alpha]
}

/// The bytes of a row of pixels, left to right, without its filter byte.
pub open spec fn row_bytes(row: Seq<RGBA>) -> Seq<u8>
    decreases row.len(),
{
    if row.len() == 0 {
        Seq::empty()
    } else {
        row_bytes(row.drop_last()) + pixel_bytes(row.last())
    }
}

/// The uncompressed image data of the first `h` rows of a raster `w` pixels
/// wide: each row is a filter byte 0 ("None") followed by its pixel bytes.
pub open spec fn scanlines(pixels: Seq<RGBA>, w: nat, h: nat) -> Seq<u8>
    decreases h,
{
    if h == 0 {
        Seq::empty()
    } else {
        scanlines(pixels, w, (h - 1) as nat) + seq![0u8] + row_bytes(
            pixels.subrange((h - 1) * w, (h * w) as int),
        )
    }
}

/// The bytes of a row: four per pixel, in pixel order.
pub proof fn lemma_row_bytes(row: Seq<RGBA>)
    ensures
        row_bytes(row).len() == 4 * row.len(),
        forall|c: int, k: int|
            0 <= c < row.len() && 0 <= k < 4 ==> #[trigger] row_bytes(row)[4 * c + k]
                == pixel_bytes(row[c])[k],
    decreases row.len(),
{
    if row.len() > 0 {
        let init = row.drop_last();
        lemma_row_bytes(init);
        assert forall|c: int, k: int|
            0 <= c < row.len() && 0 <= k < 4 implies #[trigger] row_bytes(row)[4 * c + k]
                == pixel_bytes(row[c])[k] by {
            if c < init.len() {
                assert(init[c] == row[c]);
                assert(row_bytes(init)[4 * c + k] == pixel_bytes(init[c])[k]);
            }
        }
    }
}

/// The layout of the scanline buffer: `h` rows of `1 + 4 * w` bytes, each a
/// zero filter byte followed by the channel bytes of its `w` pixels.
pub proof fn lemma_scanline_layout(pixels: Seq<RGBA>, w: nat, h: nat)
    requires
        pixels.len() == w * h,
    ensures
        scanlines(pixels, w, h).len() == h * (1 + 4 * w),
        forall|r: int| 0 <= r < h ==> #[trigger] scanlines(pixels, w, h)[r * (1 + 4 * w)] == 0,
        forall|r: int, c: int, k: int|
            0 <= r < h && 0 <= c < w && 0 <= k < 4 ==> #[trigger] scanlines(pixels, w, h)[r * (1
                + 4 * w) + 1 + 4 * c + k] == pixel_bytes(pixels[r * w + c])[k],
    decreases h,
{
    if h > 0 {
        let h1 = (h - 1) as nat;
        let wi = w as int;
        assert(h1 * wi + wi == h * wi && h * wi == w * h) by (nonlinear_arith)
            requires h1 == h - 1, wi == w;
        let front = pixels.subrange(0, h1 * wi);
        lemma_scanline_layout(front, w, h1);
        lemma_scanline_layout_prefix(pixels, w, h1);
        assert(w * h1 == h1 * wi) by (nonlinear_arith) requires wi == w;
        let prev = scanlines(pixels, w, h1);
        assert(prev == scanlines(front, w, h1));
        let row = pixels.subrange(h1 * wi, h * wi);
        lemma_row_bytes(row);
        let all = scanlines(pixels, w, h);
        assert(all == prev + seq![0u8] + row_bytes(row));
        assert(h * (1 + 4 * w) == h1 * (1 + 4 * w) + 1 + 4 * w) by (nonlinear_arith)
            requires h1 == h - 1;
        assert forall|r: int| 0 <= r < h implies #[trigger] all[r * (1 + 4 * w)] == 0 by {
            if r < h1 {
                assert(r * (1 + 4 * w) < h1 * (1 + 4 * w)) by (nonlinear_arith)
                    requires r < h1, w >= 0;
                assert(all[r * (1 + 4 * w)] == prev[r * (1 + 4 * w)]);
            } else {
                assert(r * (1 + 4 * w) == h1 * (1 + 4 * w));
            }
        }
        assert forall|r: int, c: int, k: int|
            0 <= r < h && 0 <= c < w && 0 <= k < 4 implies #[trigger] all[r * (1 + 4 * w) + 1 + 4
                * c + k] == pixel_bytes(pixels[r * w + c])[k] by {
            if r < h1 {
                assert(r * (1 + 4 * w) + 1 + 4 * c + k < h1 * (1 + 4 * w)) by (nonlinear_arith)
                    requires r < h1, c < w, k < 4, r >= 0;
                assert((r + 1) * wi <= h1 * wi) by (nonlinear_arith)
                    requires r + 1 <= h1, wi >= 0;
                assert(r * wi + c < h1 * wi) by (nonlinear_arith)
                    requires (r + 1) * wi <= h1 * wi, c < wi;
                assert(front[r * w + c] == pixels[r * w + c]);
                assert(all[r * (1 + 4 * w) + 1 + 4 * c + k] == prev[r * (1 + 4 * w) + 1 + 4 * c
                    + k]);
            } else {
                assert(r * (1 + 4 * w) == h1 * (1 + 4 * w));
                assert(r * w == h1 * w);
                assert(row[c] == pixels[r * w + c]);
                assert(all[r * (1 + 4 * w) + 1 + 4 * c + k] == row_bytes(row)[4 * c + k]);
            }
        }
    }
}

/// The scanlines of the first `h` rows only read those rows' pixels.
proof fn lemma_scanline_layout_prefix(pixels: Seq<RGBA>, w: nat, h: nat)
    requires
        w * h <= pixels.len(),
    ensures
        scanlines(pixels, w, h) == scanlines(pixels.subrange(0, (w * h) as int), w, h),
    decreases h,
{
    let front = pixels.subrange(0, (w * h) as int);
    if h > 0 {
        let h1 = (h - 1) as nat;
        assert(w * h1 <= w * h && h * w == h1 * w + w && h * w == w * h && h1 * w == w * h1)
            by (nonlinear_arith) requires h1 == h - 1;
        lemma_scanline_layout_prefix(pixels, w, h1);
        lemma_scanline_layout_prefix(front, w, h1);
        assert(front.subrange(0, (w * h1) as int) =~= pixels.subrange(0, (w * h1) as int));
        assert(front.subrange((h1 * w) as int, (h * w) as int) =~= pixels.subrange(
            (h1 * w) as int,
            (h * w) as int,
        ));
    }
}

/// How a reader of the scanline buffer of a raster `w` by `h` recovers its
/// pixels: pixel `i` sits in row `i / w`, after the row's filter byte and
/// `i % w` pixels, its channels in the order red, blue, green, alpha.
pub open spec fn decode_scanlines(raw: Seq<u8>, w: nat, h: nat) -> Seq<RGBA> {
    Seq::new(
        w * h,
        |i: int|
            {
                let o = (i / (w as int)) * (1 + 4 * w) + 1 + 4 * (i % (w as int));
                RGBA { red: raw[o], blue: raw[o + 1], green: raw[o + 2], alpha: raw[o + 3] }
            },
    )
}

/// Reading the scanline buffer back gives the pixels it was made of.
pub proof fn lemma_decode_scanlines(pixels: Seq<RGBA>, w: nat, h: nat)
    requires
        pixels.len() == w * h,
    ensures
        decode_scanlines(scanlines(pixels, w, h), w, h) == pixels,
{
    let raw = scanlines(pixels, w, h);
    lemma_scanline_layout(pixels, w, h);
    let d = decode_scanlines(raw, w, h);
    assert forall|i: int| 0 <= i < pixels.len() implies d[i] == pixels[i] by {
        let wi = w as int;
        let r = i / wi;
        let c = i % wi;
        assert(wi > 0) by (nonlinear_arith)
            requires 0 <= i < w * h, wi == w;
        lemma_fundamental_div_mod(i, wi);
        lemma_mod_bound(i, wi);
        lemma_div_pos_is_pos(i, wi);
        assert(r * wi == wi * r) by (nonlinear_arith);
        assert(r < h) by (nonlinear_arith)
            requires i == r * wi + c, 0 <= c, i < w * h, wi == w, r >= 0;
        let o = r * (1 + 4 * w) + 1 + 4 * c;
        assert(raw[o + 0] == pixel_bytes(pixels[r * w + c])[0]);
        assert(raw[o + 1] == pixel_bytes(pixels[r * w + c])[1]);
        assert(raw[o + 2] == pixel_bytes(pixels[r * w + c])[2]);
        assert(raw[o + 3] == pixel_bytes(pixels[r * w + c])[3]);
    }
    assert(d =~= pixels);
}

/// The compressed form of a byte sequence: a zlib stream (RFC 1950) whose
/// deflate data (RFC 1951) decodes to it.
pub uninterp spec fn zlib_of(data: Seq<u8>) -> Seq<u8>;

/// Relies on deflate's `deflate_bytes_zlib`: the zlib stream (header, deflate
/// blocks at the default level, Adler-32 trailer) depends on the input alone.
#[verifier::external_body]
fn zlib_compress(data: &[u8]) -> (r: Vec<u8>)
    ensures
        r@ == zlib_of(data@),
{
    deflate_bytes_zlib(data)
}

/// The uncompressed image data of a raster `width` pixels wide and `height`
/// rows high, held row after row in `pixels`.
pub fn scanline_bytes(pixels: &Vec<RGBA>, width: usize, height: usize) -> (r: Vec<u8>)
    requires
        pixels@.len() == width * height,
    ensures
        r@ == scanlines(pixels@, width as nat, height as nat),
{
    let ghost w = width as int;
    let n = pixels.len();
    let mut out: Vec<u8> = Vec::new();
    let mut row: usize = 0;
    let mut k: usize = 0;
    while row < height
        invariant
            row <= height,
            pixels@.len() == width * height,
            w == width,
            n == pixels@.len(),
            k == row * w,
            out@ == scanlines(pixels@, width as nat, row as nat),
        decreases height - row,
    {
        out.push(0u8);
        let ghost start = row * w;
        assert(start + w <= pixels@.len()) by (nonlinear_arith)
            requires start == row * w, row + 1 <= height, pixels@.len() == w * height, w >= 0;
        assert(pixels@.subrange(start, start) =~= Seq::<RGBA>::empty());
        let mut c: usize = 0;
        while c < width
            invariant
                row < height,
                c <= width,
                pixels@.len() == width * height,
                w == width,
                start == row * w,
                start + w <= pixels@.len(),
                n == pixels@.len(),
                k == start + c,
                out@ == scanlines(pixels@, width as nat, row as nat) + seq![0u8] + row_bytes(
                    pixels@.subrange(start, start + c),
                ),
            decreases width - c,
        {
            assert((row + 1) * w <= height * w) by (nonlinear_arith)
                requires row + 1 <= height, w >= 0;
            assert(k < pixels@.len()) by (nonlinear_arith)
                requires k == row * w + c, c < w, (row + 1) * w <= height * w,
                    pixels@.len() == width * height, w == width;
            let p = pixels[k];
            out.push(p.red);
            out.push(p.blue);
            out.push(p.green);
            out.push(p.alpha);
            proof {
                let next = pixels@.subrange(start, start + c + 1);
                assert(next.drop_last() =~= pixels@.subrange(start, start + c));
                assert(next.last() == p);
            }
            c = c + 1;
            k = k + 1;
        }
        proof {
            assert((row + 1) * w == start + w) by (nonlinear_arith)
                requires start == row * w;
        }
        row = row + 1;
    }
    out
}

/// The IDAT payload of a raster `width` pixels wide: its scanlines,
/// compressed as a zlib stream.
pub fn encode_image_pixels(pixels: Vec<RGBA>, width: i32) -> (r: Vec<u8>)
    requires
        width > 0,
        pixels@.len() % (width as nat) == 0,
    ensures
        r@ == zlib_of(
            scanlines(pixels@, width as nat, pixels@.len() / (width as nat)),
        ),
{
    let w = width as usize;
    let h = pixels.len() / w;
    assert(pixels@.len() == w * h) by (nonlinear_arith)
        requires pixels@.len() % (w as nat) == 0, h == pixels@.len() / (w as nat), w > 0;
    let raw = scanline_bytes(&pixels, w, h);
    zlib_compress(raw.as_slice())
}

} // verus!
