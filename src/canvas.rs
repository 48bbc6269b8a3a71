use image::{ImageBuffer, Rgb};
use vstd::prelude::*;

verus! {

/// An RGB image with eight bits per channel, held by the `image` crate.
#[verifier::external_body]
pub struct RgbCanvas {
    image: ImageBuffer<Rgb<u8>, Vec<u8>>,
}

/// The packed samples of a canvas: three bytes per pixel, row after row.
pub uninterp spec fn canvas_samples(c: RgbCanvas) -> Seq<u8>;

/// The width in pixels of a canvas.
pub uninterp spec fn canvas_width(c: RgbCanvas) -> nat;

/// The height in pixels of a canvas.
pub uninterp spec fn canvas_height(c: RgbCanvas) -> nat;

impl RgbCanvas {
    /// Relies on `ImageBuffer::new`: an image of the given size whose samples are
    /// all zero, three for each pixel. It panics when that count, or three times
    /// the width on the way to it, overflows `usize`.
    #[verifier::external_body]
    pub(crate) fn new(width: u32, height: u32) -> (c: RgbCanvas)
        requires
            3 * width <= usize::MAX,
            3 * width * height <= usize::MAX,
        ensures
            canvas_width(c) == width,
            canvas_height(c) == height,
            canvas_samples(c) == Seq::new((3 * width * height) as nat, |i: int| 0u8),
    {
        RgbCanvas { image: ImageBuffer::new(width, height) }
    }

    /// Relies on `ImageBuffer::put_pixel`: the three channels of the pixel in
    /// column `x` and row `y` are the samples from `3 * (y * width + x)` on. It
    /// panics when `(x, y)` lies outside the image or those samples outside the
    /// buffer.
    #[verifier::external_body]
    pub(crate) fn put_rgb(&mut self, x: u32, y: u32, rgb: [u8; 3])
        requires
            x < canvas_width(*old(self)),
            y < canvas_height(*old(self)),
            3 * (y * canvas_width(*old(self)) + x) + 3 <= canvas_samples(*old(self)).len(),
        ensures
            canvas_width(*final(self)) == canvas_width(*old(self)),
            canvas_height(*final(self)) == canvas_height(*old(self)),
            canvas_samples(*final(self)) == canvas_samples(*old(self)).update(
                3 * (y * canvas_width(*old(self)) + x),
                rgb[0],
            ).update(3 * (y * canvas_width(*old(self)) + x) + 1, rgb[1]).update(
                3 * (y * canvas_width(*old(self)) + x) + 2,
                rgb[2],
            ),
    {
        self.image.put_pixel(x, y, Rgb(rgb))
    }

    /// Relies on `ImageBuffer::into_raw`: the buffer of samples itself.
    #[verifier::external_body]
    pub(crate) fn into_samples(self) -> (s: Vec<u8>)
        ensures
            s@ == canvas_samples(self),
    {
        self.image.into_raw()
    }
}

} // verus!
