use png_encoder::chunk::{be32_bytes, encode_image_chunk};
use png_encoder::encoder::create_image;
use png_encoder::header::encode_image_metadata;
use png_encoder::scanline::{encode_image_pixels, scanline_bytes, RGBA};
use png_encoder::PngError;

const SIGNATURE: [u8; 8] = [0x89, 0x50, 0x4E, 0x47, 0x0D, 0x0A, 0x1A, 0x0A];

fn px(red: u8, green: u8, blue: u8, alpha: u8) -> RGBA {
    RGBA { red, green, blue, alpha }
}

fn crc32(bytes: &[u8]) -> u32 {
    crc::Crc::<u32>::new(&crc::CRC_32_ISO_HDLC).checksum(bytes)
}

fn be(bytes: &[u8]) -> u32 {
    u32::from_be_bytes([bytes[0], bytes[1], bytes[2], bytes[3]])
}

/// Splits what follows the signature into (tag, payload, stored crc) triples,
/// panicking on a truncated chunk.
fn chunks(png: &[u8]) -> Vec<(Vec<u8>, Vec<u8>, u32)> {
    let mut out = Vec::new();
    let mut rest = &png[8..];
    while !rest.is_empty() {
        assert!(rest.len() >= 12);
        let len = be(&rest[0..4]) as usize;
        assert!(rest.len() >= 12 + len);
        let tag = rest[4..8].to_vec();
        let payload = rest[8..8 + len].to_vec();
        let crc = be(&rest[8 + len..12 + len]);
        out.push((tag, payload, crc));
        rest = &rest[12 + len..];
    }
    out
}

fn inflate(data: &[u8]) -> Vec<u8> {
    miniz_oxide::inflate::decompress_to_vec_zlib(data).expect("IDAT is a zlib stream")
}

/// Checks everything a valid stream of this encoder must hold and returns
/// the decompressed scanlines.
fn check_stream(png: &[u8], width: u32, height: u32) -> Vec<u8> {
    assert_eq!(&png[0..8], &SIGNATURE);
    let cs = chunks(png);
    assert_eq!(cs.len(), 3);
    assert_eq!(cs[0].0, b"IHDR".to_vec());
    assert_eq!(cs[1].0, b"IDAT".to_vec());
    assert_eq!(cs[2].0, b"IEND".to_vec());
    for (tag, payload, crc) in &cs {
        let mut both = tag.clone();
        both.extend_from_slice(payload);
        assert_eq!(*crc, crc32(&both));
    }
    assert_eq!(cs[0].1.len(), 13);
    assert_eq!(be(&cs[0].1[0..4]), width);
    assert_eq!(be(&cs[0].1[4..8]), height);
    assert_eq!(&cs[0].1[8..13], &[8, 6, 0, 0, 0]);
    assert!(cs[2].1.is_empty());
    let raw = inflate(&cs[1].1);
    let stride = 1 + 4 * width as usize;
    assert_eq!(raw.len(), height as usize * stride);
    for k in 0..height as usize {
        assert_eq!(raw[k * stride], 0);
    }
    raw
}

#[test]
fn single_black_pixel() {
    let png = create_image(vec![px(0, 0, 0, 255)], 1, 1).unwrap();
    let raw = check_stream(&png, 1, 1);
    assert_eq!(raw, vec![0, 0, 0, 0, 255]);
}

#[test]
fn two_pixel_row_keeps_red_blue_green_alpha_order() {
    let png = create_image(vec![px(255, 0, 0, 255), px(0, 255, 0, 255)], 2, 1).unwrap();
    let raw = check_stream(&png, 2, 1);
    assert_eq!(raw, vec![0, 255, 0, 0, 255, 0, 0, 255, 255]);
}

#[test]
fn four_by_four_grey() {
    let p = px(128, 128, 128, 128);
    let png = create_image(vec![p; 16], 4, 4).unwrap();
    let raw = check_stream(&png, 4, 4);
    assert_eq!(raw.len(), 68);
    for (i, b) in raw.iter().enumerate() {
        if i % 17 == 0 {
            assert_eq!(*b, 0);
        } else {
            assert_eq!(*b, 128);
        }
    }
}

#[test]
fn zero_dimensions_rejected() {
    assert_eq!(create_image(vec![], 0, 0), Err(PngError::InvalidDimensions));
}

#[test]
fn zero_or_negative_side_rejected() {
    assert_eq!(create_image(vec![], 0, 5), Err(PngError::InvalidDimensions));
    assert_eq!(create_image(vec![], 5, 0), Err(PngError::InvalidDimensions));
    assert_eq!(create_image(vec![px(1, 2, 3, 4)], -1, 1), Err(PngError::InvalidDimensions));
    assert_eq!(create_image(vec![px(1, 2, 3, 4)], 1, -1), Err(PngError::InvalidDimensions));
}

#[test]
fn too_few_pixels_rejected() {
    assert_eq!(create_image(vec![px(0, 0, 0, 255)], 2, 2), Err(PngError::PixelCountMismatch));
}

#[test]
fn pixel_count_off_by_one_rejected() {
    let p = px(9, 9, 9, 9);
    assert_eq!(create_image(vec![p; 5], 2, 3), Err(PngError::PixelCountMismatch));
    assert_eq!(create_image(vec![p; 7], 2, 3), Err(PngError::PixelCountMismatch));
    assert!(create_image(vec![p; 6], 2, 3).is_ok());
}

#[test]
fn encoding_is_deterministic() {
    let a = create_image(vec![px(0, 0, 0, 255)], 1, 1).unwrap();
    let b = create_image(vec![px(0, 0, 0, 255)], 1, 1).unwrap();
    assert_eq!(a, b);
}

#[test]
fn large_power_of_two_image() {
    let n: usize = 1024 * 1024;
    let pixels: Vec<RGBA> = (0..n).map(|i| px(i as u8, (i >> 8) as u8, (i >> 16) as u8, 255)).collect();
    let png = create_image(pixels.clone(), 1024, 1024).unwrap();
    let raw = check_stream(&png, 1024, 1024);
    let stride = 1 + 4 * 1024;
    for (i, p) in pixels.iter().enumerate().step_by(4099) {
        let o = (i / 1024) * stride + 1 + 4 * (i % 1024);
        assert_eq!(&raw[o..o + 4], &[p.red, p.blue, p.green, p.alpha]);
    }
}

#[test]
fn pixels_read_back_from_stream() {
    let pixels = vec![
        px(1, 2, 3, 4),
        px(5, 6, 7, 8),
        px(9, 10, 11, 12),
        px(13, 14, 15, 16),
        px(17, 18, 19, 20),
        px(21, 22, 23, 24),
    ];
    let png = create_image(pixels.clone(), 3, 2).unwrap();
    let raw = check_stream(&png, 3, 2);
    let mut back = Vec::new();
    for i in 0..6 {
        let o = (i / 3) * 13 + 1 + 4 * (i % 3);
        back.push(RGBA { red: raw[o], blue: raw[o + 1], green: raw[o + 2], alpha: raw[o + 3] });
    }
    assert_eq!(back, pixels);
}

#[test]
fn iend_chunk_bytes() {
    let mut empty = Vec::new();
    let chunk = encode_image_chunk(b"IEND", &mut empty).unwrap();
    assert_eq!(chunk, vec![0, 0, 0, 0, 0x49, 0x45, 0x4E, 0x44, 0xAE, 0x42, 0x60, 0x82]);
}

#[test]
fn chunk_framing_moves_payload() {
    let mut data = vec![1, 2, 3];
    let chunk = encode_image_chunk(b"abcd", &mut data).unwrap();
    assert!(data.is_empty());
    assert_eq!(&chunk[0..4], &[0, 0, 0, 3]);
    assert_eq!(&chunk[4..8], b"abcd");
    assert_eq!(&chunk[8..11], &[1, 2, 3]);
    assert_eq!(be(&chunk[11..15]), crc32(b"abcd\x01\x02\x03"));
    assert_eq!(chunk.len(), 15);
}

#[test]
fn chunk_type_must_be_four_bytes() {
    let mut data = vec![1, 2, 3];
    assert_eq!(encode_image_chunk(b"IHD", &mut data), Err(PngError::InvalidChunkType));
    assert_eq!(encode_image_chunk(b"IHDRX", &mut data), Err(PngError::InvalidChunkType));
    assert_eq!(data, vec![1, 2, 3]);
}

#[test]
fn metadata_bytes() {
    assert_eq!(
        encode_image_metadata(300, 2),
        vec![0, 0, 1, 44, 0, 0, 0, 2, 8, 6, 0, 0, 0]
    );
    assert_eq!(
        encode_image_metadata(0x7fff_ffff, 0x0102_0304),
        vec![0x7f, 0xff, 0xff, 0xff, 1, 2, 3, 4, 8, 6, 0, 0, 0]
    );
}

#[test]
fn big_endian_bytes() {
    assert_eq!(be32_bytes(0x1234_5678), vec![0x12, 0x34, 0x56, 0x78]);
    assert_eq!(be32_bytes(0), vec![0, 0, 0, 0]);
    assert_eq!(be32_bytes(u32::MAX), vec![255, 255, 255, 255]);
}

#[test]
fn scanline_buffer_layout() {
    let pixels = vec![px(1, 2, 3, 4), px(5, 6, 7, 8)];
    assert_eq!(scanline_bytes(&pixels, 1, 2), vec![0, 1, 3, 2, 4, 0, 5, 7, 6, 8]);
    assert_eq!(scanline_bytes(&pixels, 2, 1), vec![0, 1, 3, 2, 4, 5, 7, 6, 8]);
    assert_eq!(scanline_bytes(&vec![], 0, 3), vec![0, 0, 0]);
}

#[test]
fn pixel_data_is_compressed_zlib() {
    let pixels = vec![px(7, 7, 7, 7); 64];
    let idat = encode_image_pixels(pixels.clone(), 8);
    assert_ne!(idat, scanline_bytes(&pixels, 8, 8));
    assert_eq!(inflate(&idat), scanline_bytes(&pixels, 8, 8));
}
