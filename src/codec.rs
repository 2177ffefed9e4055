//! The container format: four magic bytes, the width and the height as
//! big-endian 32-bit integers, then the zlib-compressed pixel bytes.
use vstd::prelude::*;
use flate2::write::{ZlibDecoder, ZlibEncoder};
use flate2::Compression;
use std::io::Write;
use crate::pixel::{bytes_to_pixels, pixel_bytes, rgba_at, lemma_bytes_to_pixels_inverse, lemma_pixel_bytes_index, Image, Rgba};

verus! {

/// The zlib stream that flate2 writes for `data` at the default level.
pub uninterp spec fn zlib_of(data: Seq<u8>) -> Seq<u8>;

/// What flate2 inflates from `data`, or `None` where `data` is no valid
/// zlib stream.
pub uninterp spec fn unzlib_of(data: Seq<u8>) -> Option<Seq<u8>>;

/// Relies on flate2's `write::ZlibEncoder` at `Compression::default()`: the
/// compressed stream depends on the input bytes alone, and zlib is lossless,
/// so `write::ZlibDecoder` inflates it back to the input. Writing into a
/// `Vec` cannot fail.
#[verifier::external_body]
fn zlib_compress(data: &[u8]) -> (r: Vec<u8>)
    ensures
        r@ == zlib_of(data@),
        unzlib_of(r@) == Some(data@),
{
    let mut encoder = ZlibEncoder::new(Vec::new(), Compression::default());
    encoder.write_all(data).unwrap();
    encoder.finish().unwrap()
}

/// Relies on flate2's `write::ZlibDecoder`: it inflates a zlib stream, and
/// fails on one that is not valid; the outcome depends on the input alone.
#[verifier::external_body]
fn zlib_decompress(data: &[u8]) -> (r: Option<Vec<u8>>)
    ensures
        r matches Some(v) ==> unzlib_of(data@) == Some(v@),
        r is None ==> unzlib_of(data@) is None,
{
    let mut decoder = ZlibDecoder::new(Vec::new());
    match decoder.write_all(data) {
        Ok(()) => decoder.finish().ok(),
        Err(_) => None,
    }
}

/// Why a byte stream could not be decoded.
#[derive(Clone, Copy, Debug, PartialEq, Eq, Structural)]
pub enum DecodeError {
    /// The stream does not start with the magic bytes.
    FormatMismatch,
    /// The stream ends inside the header.
    Truncated,
    /// The payload does not inflate, or not to four bytes per pixel.
    CorruptPayload,
}

/// The magic bytes, ASCII "RUGS".
pub open spec fn magic() -> Seq<u8> {
    seq![82u8, 85u8, 71u8, 83u8]
}

/// A 32-bit integer as four bytes, most significant first.
pub open spec fn be_bytes(x: u32) -> Seq<u8> {
    seq![(x >> 24u32) as u8, (x >> 16u32) as u8, (x >> 8u32) as u8, x as u8]
}

/// The big-endian 32-bit integer held by the four bytes at `at`.
pub open spec fn be_u32(b: Seq<u8>, at: int) -> u32 {
    (b[at] as u32) << 24u32 | (b[at + 1] as u32) << 16u32 | (b[at + 2] as u32) << 8u32 | (
    b[at + 3] as u32)
}

/// The encoding of an image: magic, width, height, compressed pixel bytes.
pub open spec fn encoded(width: u32, height: u32, pixels: Seq<Rgba>) -> Seq<u8> {
    magic() + be_bytes(width) + be_bytes(height) + zlib_of(pixel_bytes(pixels))
}

/// The image made of dimensions and inflated pixel bytes: four bytes per pixel
/// are required.
pub open spec fn from_payload(width: u32, height: u32, payload: Seq<u8>) -> Result<
    (u32, u32, Seq<Rgba>),
    DecodeError,
> {
    if payload.len() == 4 * (width as int * height as int) {
        Ok((width, height, bytes_to_pixels(payload)))
    } else {
        Err(DecodeError::CorruptPayload)
    }
}

/// What decoding a byte stream gives.
pub open spec fn decoded(raw: Seq<u8>) -> Result<(u32, u32, Seq<Rgba>), DecodeError> {
    if raw.len() < 4 || raw.take(4) != magic() {
        Err(DecodeError::FormatMismatch)
    } else if raw.len() < 12 {
        Err(DecodeError::Truncated)
    } else {
        match unzlib_of(raw.skip(12)) {
            None => Err(DecodeError::CorruptPayload),
            Some(p) => from_payload(be_u32(raw, 4), be_u32(raw, 8), p),
        }
    }
}

proof fn lemma_be_round_trip(x: u32)
    ensures
        be_u32(be_bytes(x), 0) == x,
{
    let b = be_bytes(x);
    assert(b[0] == (x >> 24u32) as u8 && b[1] == (x >> 16u32) as u8 && b[2] == (x >> 8u32) as u8
        && b[3] == x as u8);
    assert(((((x >> 24u32) as u8) as u32) << 24u32 | (((x >> 16u32) as u8) as u32) << 16u32 | ((
    (x >> 8u32) as u8) as u32) << 8u32 | ((x as u8) as u32)) == x) by (bit_vector);
}

/// The parts of an encoding: its header fields and its payload.
proof fn lemma_encoded_parts(width: u32, height: u32, pixels: Seq<Rgba>)
    ensures
        encoded(width, height, pixels).len() >= 12,
        encoded(width, height, pixels).take(4) == magic(),
        be_u32(encoded(width, height, pixels), 4) == width,
        be_u32(encoded(width, height, pixels), 8) == height,
        encoded(width, height, pixels).skip(12) == zlib_of(pixel_bytes(pixels)),
{
    let e = encoded(width, height, pixels);
    lemma_be_round_trip(width);
    lemma_be_round_trip(height);
    assert(e.take(4) =~= magic());
    assert(e.skip(12) =~= zlib_of(pixel_bytes(pixels)));
    assert(be_u32(e, 4) == be_u32(be_bytes(width), 0));
    assert(be_u32(e, 8) == be_u32(be_bytes(height), 0));
}

fn push_be_u32(buffer: &mut Vec<u8>, x: u32)
    ensures
        final(buffer)@ == old(buffer)@ + be_bytes(x),
{
    buffer.push((x >> 24u32) as u8);
    buffer.push((x >> 16u32) as u8);
    buffer.push((x >> 8u32) as u8);
    buffer.push(x as u8);
    assert(buffer@ =~= old(buffer)@ + be_bytes(x));
}

fn read_be_u32(b: &[u8], at: usize) -> (r: u32)
    requires
        at + 4 <= b@.len(),
    ensures
        r == be_u32(b@, at as int),
{
    (b[at] as u32) << 24u32 | (b[at + 1] as u32) << 16u32 | (b[at + 2] as u32) << 8u32 | (b[at
        + 3] as u32)
}

/// Builds an image from its dimensions and its inflated pixel bytes; fails
/// with `CorruptPayload` unless there are exactly four bytes per pixel.
pub fn from_parts(width: u32, height: u32, payload: Vec<u8>) -> (r: Result<Image, DecodeError>)
    ensures
        match r {
            Ok(img) => from_payload(width, height, payload@) == Ok::<(u32, u32, Seq<Rgba>), DecodeError>(img@) && img.wf(),
            Err(e) => from_payload(width, height, payload@) == Err::<(u32, u32, Seq<Rgba>), DecodeError>(e),
        },
{
    assert(0 <= width as int * height as int <= 0xffff_ffff * 0xffff_ffff) by (nonlinear_arith)
        requires
            0 <= width <= 0xffff_ffff,
            0 <= height <= 0xffff_ffff,
    ;
    let area: u128 = width as u128 * height as u128;
    if payload.len() as u128 != 4 * area {
        return Err(DecodeError::CorruptPayload);
    }
    let plen = payload.len();
    let n = plen / 4;
    let mut image_data: Vec<Rgba> = Vec::new();
    let mut i: usize = 0;
    while i < n
        invariant
            plen == payload@.len(),
            n == plen / 4,
            i <= n,
            image_data@ =~= Seq::new(i as nat, |k: int| rgba_at(payload@, k)),
        decreases n - i,
    {
        assert(4 * i + 3 < payload@.len());
        let px = Rgba {
            r: payload[4 * i],
            g: payload[4 * i + 1],
            b: payload[4 * i + 2],
            a: payload[4 * i + 3],
        };
        image_data.push(px);
        i += 1;
    }
    assert(image_data@ =~= bytes_to_pixels(payload@));
    Ok(Image { width, height, image_data })
}

impl Image {
    /// Encodes the image: magic bytes, big-endian width and height, then the
    /// pixel bytes compressed with zlib.
    pub fn deserialize(&self) -> (r: Vec<u8>)
        ensures
            r@ == encoded(self.width, self.height, self.image_data@),
            self.wf() ==> decoded(r@) == Ok::<(u32, u32, Seq<Rgba>), DecodeError>(self@),
    {
        let mut buffer: Vec<u8> = Vec::new();
        buffer.push(82u8);
        buffer.push(85u8);
        buffer.push(71u8);
        buffer.push(83u8);
        push_be_u32(&mut buffer, self.width);
        push_be_u32(&mut buffer, self.height);
        let image_bytes = self.image_bytes();
        let mut compressed = zlib_compress(image_bytes.as_slice());
        buffer.append(&mut compressed);
        assert(buffer@ =~= encoded(self.width, self.height, self.image_data@));
        proof {
            let px = self.image_data@;
            lemma_encoded_parts(self.width, self.height, px);
            lemma_pixel_bytes_index(px);
            lemma_bytes_to_pixels_inverse(px);
        }
        buffer
    }

    /// Decodes a byte stream written by `deserialize`. A stream that does not
    /// start with the magic bytes is rejected whatever follows them.
    pub fn serialize(raw_bytes: Vec<u8>) -> (r: Result<Image, DecodeError>)
        ensures
            match r {
                Ok(img) => decoded(raw_bytes@) == Ok::<(u32, u32, Seq<Rgba>), DecodeError>(img@) && img.wf(),
                Err(e) => decoded(raw_bytes@) == Err::<(u32, u32, Seq<Rgba>), DecodeError>(e),
            },
            raw_bytes@.len() >= 4 && raw_bytes@.take(4) != magic() ==> r == Err::<Image, DecodeError>(DecodeError::FormatMismatch),
    {
        let len = raw_bytes.len();
        if len < 4 || raw_bytes[0] != 82u8 || raw_bytes[1] != 85u8 || raw_bytes[2] != 71u8
            || raw_bytes[3] != 83u8 {
            assert(len >= 4 ==> (raw_bytes@.take(4) == magic() <==> (raw_bytes@[0] == 82u8 && raw_bytes@[1] == 85u8 && raw_bytes@[2] == 71u8 && raw_bytes@[3] == 83u8)));
            return Err(DecodeError::FormatMismatch);
        }
        assert(raw_bytes@.take(4) =~= magic());
        if len < 12 {
            return Err(DecodeError::Truncated);
        }
        let width = read_be_u32(raw_bytes.as_slice(), 4);
        let height = read_be_u32(raw_bytes.as_slice(), 8);
        let body = vstd::slice::slice_subrange(raw_bytes.as_slice(), 12, len);
        assert(body@ =~= raw_bytes@.skip(12));
        match zlib_decompress(body) {
            None => Err(DecodeError::CorruptPayload),
            Some(p) => from_parts(width, height, p),
        }
    }
}

} // verus!
