//! Colors, pixel buffers, and the flat byte layout of pixel data.
use vstd::prelude::*;

verus! {

/// One color sample: four independent 8-bit channels.
#[derive(Clone, Copy, Debug, PartialEq, Eq, Hash, Structural)]
pub struct Rgba {
    pub r: u8,
    pub g: u8,
    pub b: u8,
    pub a: u8,
}

/// The four channels of a color, in R, G, B, A order.
pub open spec fn channels(c: Rgba) -> Seq<u8> {
    seq![c.r, c.g, c.b, c.a]
}

/// The bytes of a pixel sequence: each color's channels, in pixel order.
pub open spec fn pixel_bytes(s: Seq<Rgba>) -> Seq<u8>
    decreases s.len(),
{
    if s.len() == 0 {
        Seq::empty()
    } else {
        pixel_bytes(s.drop_last()) + channels(s.last())
    }
}

/// The color whose channels are the four bytes starting at `4 * i`.
pub open spec fn rgba_at(b: Seq<u8>, i: int) -> Rgba {
    Rgba { r: b[4 * i], g: b[4 * i + 1], b: b[4 * i + 2], a: b[4 * i + 3] }
}

/// The colors read from a byte sequence four bytes at a time; a trailing
/// group of fewer than four bytes is ignored.
pub open spec fn bytes_to_pixels(b: Seq<u8>) -> Seq<Rgba> {
    Seq::new((b.len() / 4) as nat, |i: int| rgba_at(b, i))
}

/// `pixel_bytes` holds four bytes per pixel, the channels of pixel `i` at `4 * i`.
pub proof fn lemma_pixel_bytes_index(s: Seq<Rgba>)
    ensures
        pixel_bytes(s).len() == 4 * s.len(),
        forall|i: int|
            0 <= i < s.len() ==> #[trigger] rgba_at(pixel_bytes(s), i) == s[i],
    decreases s.len(),
{
    if s.len() > 0 {
        let p = s.drop_last();
        lemma_pixel_bytes_index(p);
        let b = pixel_bytes(s);
        assert forall|i: int| 0 <= i < s.len() implies #[trigger] rgba_at(b, i) == s[i] by {
            if i < p.len() {
                assert(rgba_at(pixel_bytes(p), i) == p[i]);
            }
        }
    }
}

/// Reading back the bytes of a pixel sequence gives the same pixels.
pub proof fn lemma_bytes_to_pixels_inverse(s: Seq<Rgba>)
    ensures
        bytes_to_pixels(pixel_bytes(s)) == s,
{
    lemma_pixel_bytes_index(s);
    assert(bytes_to_pixels(pixel_bytes(s)) =~= s);
}

impl Rgba {
    /// The four channels as bytes, R, G, B, A.
    pub fn to_vec(&self) -> (r: Vec<u8>)
        ensures
            r@ == channels(*self),
    {
        let r = vec![self.r, self.g, self.b, self.a];
        assert(r@ =~= channels(*self));
        r
    }

    /// The color made of the first four bytes of `input`.
    pub fn from_bytes(input: &[u8]) -> (r: Rgba)
        requires
            input@.len() >= 4,
        ensures
            r == rgba_at(input@, 0),
    {
        Rgba { r: input[0], g: input[1], b: input[2], a: input[3] }
    }
}

/// A decoded image: its dimensions and its pixels in row-major order.
pub struct Image {
    pub width: u32,
    pub height: u32,
    pub image_data: Vec<Rgba>,
}

impl View for Image {
    type V = (u32, u32, Seq<Rgba>);

    open spec fn view(&self) -> (u32, u32, Seq<Rgba>) {
        (self.width, self.height, self.image_data@)
    }
}

impl Image {
    /// The pixel count agrees with the dimensions.
    pub open spec fn wf(&self) -> bool {
        self.image_data@.len() == self.width as int * self.height as int
    }

    /// The pixel data as bytes: four per pixel, R, G, B, A, in pixel order.
    pub fn image_bytes(&self) -> (r: Vec<u8>)
        ensures
            r@ == pixel_bytes(self.image_data@),
    {
        let mut buffer: Vec<u8> = Vec::new();
        let n = self.image_data.len();
        let mut i: usize = 0;
        while i < n
            invariant
                n == self.image_data@.len(),
                i <= n,
                buffer@ == pixel_bytes(self.image_data@.take(i as int)),
            decreases n - i,
        {
            let mut px = self.image_data[i].to_vec();
            buffer.append(&mut px);
            proof {
                let t = self.image_data@.take(i as int + 1);
                assert(t.drop_last() =~= self.image_data@.take(i as int));
            }
            i += 1;
        }
        assert(self.image_data@.take(n as int) =~= self.image_data@);
        buffer
    }
}

} // verus!
