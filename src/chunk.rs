//! Chunk framing: length, type tag, payload and CRC-32.
use vstd::prelude::*;
use vstd::slice::slice_to_vec;
use crate::error::PngError;
use crc::{Crc, CRC_32_ISO_HDLC};

verus! {

/// The largest payload length a chunk can declare: 2^31 - 1.
pub const MAX_CHUNK_LEN: usize = 0x7fff_ffff;

/// The four bytes of `x`, most significant first.
pub open spec fn be32(x: u32) -> Seq<u8> {
    seq![
        (x / 0x100_0000) as u8,
        ((x / 0x1_0000) % 0x100) as u8,
        ((x / 0x100) % 0x100) as u8,
        (x % 0x100) as u8,
    ]
}

/// The number that four bytes denote when read most significant first.
pub open spec fn be32_value(b: Seq<u8>) -> int {
    b[0] * 0x100_0000 + b[1] * 0x1_0000 + b[2] * 0x100 + b[3]
}

/// Reading back the big-endian bytes of a number gives the number.
pub proof fn lemma_be32_value(x: u32)
    ensures
        be32(x).len() == 4,
        be32_value(be32(x)) == x,
{
    let b = be32(x);
    assert(b[0] == x / 0x100_0000);
    assert(b[1] == (x / 0x1_0000) % 0x100);
    assert(b[2] == (x / 0x100) % 0x100);
    assert(b[3] == x % 0x100);
    assert((x / 0x100_0000) * 0x100_0000 + ((x / 0x1_0000) % 0x100) * 0x1_0000
        + ((x / 0x100) % 0x100) * 0x100 + x % 0x100 == x) by (nonlinear_arith);
}

/// The ISO-HDLC CRC-32 (the checksum that PNG prescribes) of a byte sequence.
pub uninterp spec fn crc32_of(data: Seq<u8>) -> u32;

/// Relies on crc's `Crc::<u32>::checksum` with the `CRC_32_ISO_HDLC` algorithm:
/// the checksum depends on the bytes alone.
#[verifier::external_body]
fn crc_32(data: &[u8]) -> (r: u32)
    ensures
        r == crc32_of(data@),
{
    let crc_encode: Crc<u32> = Crc::<u32>::new(&CRC_32_ISO_HDLC);
    crc_encode.checksum(data)
}

/// The big-endian bytes of `x`.
pub fn be32_bytes(x: u32) -> (r: Vec<u8>)
    ensures
        r@ == be32(x),
{
    let mut r: Vec<u8> = Vec::new();
    r.push((x / 0x100_0000) as u8);
    r.push(((x / 0x1_0000) % 0x100) as u8);
    r.push(((x / 0x100) % 0x100) as u8);
    r.push((x % 0x100) as u8);
    assert(r@ =~= be32(x));
    r
}

/// The bytes of a chunk: payload length, type tag, payload, and the CRC-32
/// of tag and payload, each number big-endian.
pub open spec fn chunk_bytes(tag: Seq<u8>, payload: Seq<u8>) -> Seq<u8> {
    be32(payload.len() as u32) + tag + payload + be32(crc32_of(tag + payload))
}

/// What framing a payload under a tag gives.
pub open spec fn chunk_result(tag: Seq<u8>, payload: Seq<u8>) -> Result<Seq<u8>, PngError> {
    if tag.len() != 4 {
        Err(PngError::InvalidChunkType)
    } else if payload.len() > MAX_CHUNK_LEN {
        Err(PngError::PayloadTooLarge)
    } else {
        Ok(chunk_bytes(tag, payload))
    }
}

/// Reads a stream of chunks: for each, its type tag, its payload (as many
/// bytes as its length field says) and the number its CRC field holds.
/// `None` where the bytes end inside a chunk.
pub open spec fn parse_chunks(s: Seq<u8>) -> Option<Seq<(Seq<u8>, Seq<u8>, int)>>
    decreases s.len(),
{
    if s.len() == 0 {
        Some(Seq::empty())
    } else if s.len() < 12 {
        None
    } else {
        let len = be32_value(s.subrange(0, 4));
        if s.len() < 12 + len {
            None
        } else {
            let tag = s.subrange(4, 8);
            let payload = s.subrange(8, 8 + len);
            let crc = be32_value(s.subrange(8 + len, 12 + len));
            match parse_chunks(s.subrange(12 + len, s.len() as int)) {
                Some(rest) => Some(seq![(tag, payload, crc)] + rest),
                None => None,
            }
        }
    }
}

/// A framed chunk reads back as its tag, its payload and the CRC-32 of both,
/// whatever follows it.
pub proof fn lemma_parse_chunk_bytes(tag: Seq<u8>, payload: Seq<u8>, rest: Seq<u8>)
    requires
        tag.len() == 4,
        payload.len() <= MAX_CHUNK_LEN,
        parse_chunks(rest) is Some,
    ensures
        parse_chunks(chunk_bytes(tag, payload) + rest) == Some(
            seq![(tag, payload, crc32_of(tag + payload) as int)] + parse_chunks(rest).unwrap(),
        ),
{
    let s = chunk_bytes(tag, payload) + rest;
    let len = payload.len() as int;
    lemma_be32_value(payload.len() as u32);
    lemma_be32_value(crc32_of(tag + payload));
    assert(s.subrange(0, 4) =~= be32(payload.len() as u32));
    assert(s.subrange(4, 8) =~= tag);
    assert(s.subrange(8, 8 + len) =~= payload);
    assert(s.subrange(8 + len, 12 + len) =~= be32(crc32_of(tag + payload)));
    assert(s.subrange(12 + len, s.len() as int) =~= rest);
}

/// Frames `chunk_data` as a chunk of type `chunk_type`. The payload is moved
/// out of `chunk_data`, which is left empty.
pub fn encode_image_chunk(chunk_type: &[u8], chunk_data: &mut Vec<u8>) -> (r: Result<Vec<u8>, PngError>)
    ensures
        match r {
            Ok(v) => chunk_result(chunk_type@, old(chunk_data)@) == Ok::<Seq<u8>, PngError>(v@),
            Err(e) => chunk_result(chunk_type@, old(chunk_data)@) == Err::<Seq<u8>, PngError>(e),
        },
        r is Ok ==> final(chunk_data)@ == Seq::<u8>::empty(),
        r is Err ==> final(chunk_data)@ == old(chunk_data)@,
{
    if chunk_type.len() != 4 {
        return Err(PngError::InvalidChunkType);
    }
    if chunk_data.len() > MAX_CHUNK_LEN {
        return Err(PngError::PayloadTooLarge);
    }
    // the checksum covers the type tag followed by the payload
    let mut checked = slice_to_vec(chunk_type);
    let mut data_copy = slice_to_vec(chunk_data.as_slice());
    checked.append(&mut data_copy);
    let crc = crc_32(checked.as_slice());

    let mut img_data = be32_bytes(chunk_data.len() as u32);
    let mut tag = slice_to_vec(chunk_type);
    img_data.append(&mut tag);
    img_data.append(chunk_data);
    let mut crc_bytes = be32_bytes(crc);
    img_data.append(&mut crc_bytes);
    Ok(img_data)
}

} // verus!
