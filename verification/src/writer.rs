//! Finished frames as byte pixels, and the writers that lay them out as
//! complete image byte streams.

use vstd::prelude::*;
use crate::qoi::{is_qoi_stream, qoi_encode, QOIColor};

verus! {

/// A finished frame: byte pixels in row-major order.
pub struct ByteImage {
    width: u32,
    height: u32,
    data: Vec<QOIColor>,
}

impl ByteImage {
    /// The pixels, row-major.
    pub closed spec fn pixels(&self) -> Seq<QOIColor> {
        self.data@
    }

    /// The width in pixels.
    pub closed spec fn width_spec(&self) -> u32 {
        self.width
    }

    /// The height in pixels.
    pub closed spec fn height_spec(&self) -> u32 {
        self.height
    }

    /// One pixel per coordinate of the display.
    pub open spec fn wf(&self) -> bool {
        self.pixels().len() == self.width_spec() * self.height_spec()
    }

    pub fn new(width: u32, height: u32, data: Vec<QOIColor>) -> (r: ByteImage)
        requires
            data@.len() == width * height,
        ensures
            r.wf(),
            r.width_spec() == width,
            r.height_spec() == height,
            r.pixels() == data@,
    {
        ByteImage { width, height, data }
    }

    pub fn width(&self) -> (r: u32)
        ensures
            r == self.width_spec(),
    {
        self.width
    }

    pub fn height(&self) -> (r: u32)
        ensures
            r == self.height_spec(),
    {
        self.height
    }
}

/// Lays an image out as one complete byte stream in some format.
pub trait ImageWriter: Sized {
    spec fn wf(&self) -> bool;

    /// Appends the whole encoded stream to `out`.
    fn write_to(&self, out: &mut Vec<u8>)
        requires
            self.wf(),
        ensures
            final(out)@.len() >= old(out)@.len(),
    ;

    /// The customary file extension of the format, if there is one.
    fn extension(&self) -> Option<String>;
}

/// Writes the compact lossless byte-stream format.
pub struct QOIWriter<'a>(pub &'a ByteImage);

impl<'a> ImageWriter for QOIWriter<'a> {
    open spec fn wf(&self) -> bool {
        self.0.wf()
    }

    fn write_to(&self, out: &mut Vec<u8>)
        ensures
            is_qoi_stream(
                final(out)@.skip(old(out)@.len() as int),
                self.0.width_spec(),
                self.0.height_spec(),
                self.0.pixels(),
            ),
    {
        let mut bytes = self.0.encode_pixels();
        let ghost bs = bytes@;
        out.append(&mut bytes);
        proof {
            assert(out@.skip(old(out)@.len() as int) =~= bs);
        }
    }

    fn extension(&self) -> (r: Option<String>)
        ensures
            r is Some,
    {
        Some("qoi".to_string())
    }
}

impl ByteImage {
    fn encode_pixels(&self) -> (r: Vec<u8>)
        requires
            self.wf(),
        ensures
            is_qoi_stream(r@, self.width_spec(), self.height_spec(), self.pixels()),
    {
        qoi_encode(self.width, self.height, &self.data)
    }
}

/// The decimal ASCII digits of a nonnegative number.
pub open spec fn dec_rep(n: int) -> Seq<u8>
    decreases n,
{
    if n < 10 {
        seq![(48 + if n >= 0 {
            n
        } else {
            0
        }) as u8]
    } else {
        dec_rep(n / 10).push((48 + n % 10) as u8)
    }
}

/// The text bytes of one pixel: the three channel values, each followed by
/// a space.
pub open spec fn ppm_pixel_bytes(c: QOIColor) -> Seq<u8> {
    dec_rep(c.r as int) + seq![32u8] + dec_rep(c.g as int) + seq![32u8] + dec_rep(c.b as int)
        + seq![32u8]
}

/// The text bytes of the pixels from index `i` on, a line break opening
/// every row.
pub open spec fn ppm_body(pixels: Seq<QOIColor>, w: int, i: int) -> Seq<u8>
    decreases pixels.len() - i,
{
    if i < 0 || i >= pixels.len() {
        Seq::empty()
    } else {
        (if i % w == 0 {
            seq![10u8]
        } else {
            Seq::empty()
        }) + ppm_pixel_bytes(pixels[i]) + ppm_body(pixels, w, i + 1)
    }
}

/// The whole plain-text stream: the magic line, the dimensions, the maximum
/// channel value, and the pixel rows.
pub open spec fn ppm_bytes(width: u32, height: u32, pixels: Seq<QOIColor>) -> Seq<u8> {
    seq![0x50u8, 0x33u8, 10u8] + dec_rep(width as int) + seq![32u8] + dec_rep(height as int)
        + seq![10u8] + seq![0x32u8, 0x35u8, 0x35u8, 10u8] + ppm_body(pixels, width as int, 0)
}

/// Appends the decimal digits of `n`.
fn push_decimal(out: &mut Vec<u8>, n: u32)
    ensures
        final(out)@ == old(out)@ + dec_rep(n as int),
    decreases n,
{
    if n < 10 {
        out.push(48 + n as u8);
        proof {
            assert(out@ =~= old(out)@ + dec_rep(n as int));
        }
    } else {
        push_decimal(out, n / 10);
        out.push(48 + (n % 10) as u8);
        proof {
            assert(out@ =~= old(out)@ + dec_rep(n as int));
        }
    }
}

/// Appends the text bytes of one pixel.
fn push_pixel_text(out: &mut Vec<u8>, c: QOIColor)
    ensures
        final(out)@ == old(out)@ + ppm_pixel_bytes(c),
{
    push_decimal(out, c.r as u32);
    out.push(32);
    push_decimal(out, c.g as u32);
    out.push(32);
    push_decimal(out, c.b as u32);
    out.push(32);
    proof {
        assert(out@ =~= old(out)@ + ppm_pixel_bytes(c));
    }
}

/// Encodes the pixels of a `width` by `height` image, given in row order,
/// as the complete plain-text stream.
pub fn ppm_encode(width: u32, height: u32, pixels: &Vec<QOIColor>) -> (out: Vec<u8>)
    requires
        1 <= width,
        pixels@.len() == width * height,
    ensures
        out@ == ppm_bytes(width, height, pixels@),
{
    let mut out: Vec<u8> = Vec::new();
    out.push(0x50);
    out.push(0x33);
    out.push(10);
    push_decimal(&mut out, width);
    out.push(32);
    push_decimal(&mut out, height);
    out.push(10);
    out.push(0x32);
    out.push(0x35);
    out.push(0x35);
    out.push(10);
    proof {
        assert(out@ + ppm_body(pixels@, width as int, 0) =~= ppm_bytes(width, height, pixels@));
    }
    let n = pixels.len();
    let w = width as usize;
    let mut i: usize = 0;
    while i < n
        invariant
            n == pixels@.len(),
            i <= n,
            w == width as int,
            1 <= w,
            out@ + ppm_body(pixels@, w as int, i as int) == ppm_bytes(width, height, pixels@),
        decreases n - i,
    {
        let ghost out0 = out@;
        if i % w == 0 {
            out.push(10);
        }
        push_pixel_text(&mut out, pixels[i]);
        proof {
            assert(out@ =~= out0 + (if (i as int) % (w as int) == 0 {
                seq![10u8]
            } else {
                Seq::<u8>::empty()
            }) + ppm_pixel_bytes(pixels@[i as int]));
            assert(out@ + ppm_body(pixels@, w as int, i + 1) =~= out0 + ppm_body(
                pixels@,
                w as int,
                i as int,
            ));
        }
        i = i + 1;
    }
    proof {
        assert(ppm_body(pixels@, w as int, n as int) =~= Seq::<u8>::empty());
        assert(out@ =~= out@ + ppm_body(pixels@, w as int, n as int));
    }
    out
}

/// Writes the plain-text pixel format.
#[derive(Clone, Copy)]
pub struct PPMWriter<'a>(pub &'a ByteImage);

impl<'a> ImageWriter for PPMWriter<'a> {
    open spec fn wf(&self) -> bool {
        &&& self.0.wf()
        &&& 1 <= self.0.width_spec()
    }

    fn write_to(&self, out: &mut Vec<u8>)
        ensures
            final(out)@ == old(out)@ + ppm_bytes(
                self.0.width_spec(),
                self.0.height_spec(),
                self.0.pixels(),
            ),
    {
        let mut bytes = self.0.encode_text();
        let ghost bs = bytes@;
        out.append(&mut bytes);
    }

    fn extension(&self) -> (r: Option<String>)
        ensures
            r is Some,
    {
        Some("ppm".to_string())
    }
}

impl ByteImage {
    fn encode_text(&self) -> (r: Vec<u8>)
        requires
            self.wf(),
            1 <= self.width_spec(),
        ensures
            r@ == ppm_bytes(self.width_spec(), self.height_spec(), self.pixels()),
    {
        ppm_encode(self.width, self.height, &self.data)
    }
}

} // verus!
