use crate::canvas::{canvas_height, canvas_samples, canvas_width, RgbCanvas};
use vstd::prelude::*;

verus! {

/// The index, in row-major order, of the pixel in column `x` and row `y` of
/// an image `width` pixels wide.
pub open spec fn pixel_index(x: int, y: int, width: int) -> int {
    y * width + x
}

/// The red, green and blue bytes of pixel number `k` in a packed RGB buffer.
pub open spec fn rgb_at(buf: Seq<u8>, k: int) -> (u8, u8, u8) {
    (buf[3 * k], buf[3 * k + 1], buf[3 * k + 2])
}

/// `buf` is a packed RGB buffer in which pixel `k` is grey at level `levels[k]`.
pub open spec fn is_grey_image(levels: Seq<u8>, buf: Seq<u8>) -> bool {
    &&& buf.len() == 3 * levels.len()
    &&& forall|k: int| 0 <= k < levels.len() ==> #[trigger] rgb_at(buf, k) == (levels[k], levels[k], levels[k])
}

/// The column and row of pixel number `index` in an image of `width` by
/// `height` pixels laid out row by row.
pub fn pixel_position(index: usize, width: u32, height: u32) -> (pos: (u32, u32))
    requires
        index < width * height,
    ensures
        pos.0 < width,
        pos.1 < height,
        index == pixel_index(pos.0 as int, pos.1 as int, width as int),
{
    assert(width > 0) by (nonlinear_arith)
        requires
            index < width * height,
    ;
    let w = width as usize;
    let x = index % w;
    let y = index / w;
    proof {
        assert(index == y * w + x && x < w) by (nonlinear_arith)
            requires
                x == index % w,
                y == index / w,
                w > 0,
        ;
        assert(y < height) by (nonlinear_arith)
            requires
                index < width * height,
                index == y * w + x,
                w == width,
                w > 0,
        ;
    }
    (x as u32, y as u32)
}

/// Draws an image of `width` by `height` pixels in which the pixel of index
/// `k` (row by row) is grey at level `levels[k]`, and returns its packed RGB
/// samples.
pub fn grayscale_pixels(width: u32, height: u32, levels: &Vec<u8>) -> (buf: Vec<u8>)
    requires
        levels.len() == width * height,
        3 * width <= usize::MAX,
        3 * width * height <= usize::MAX,
    ensures
        is_grey_image(levels@, buf@),
{
    let mut canvas = RgbCanvas::new(width, height);
    let mut y: u32 = 0;
    while y < height
        invariant
            levels.len() == width * height,
            3 * width * height <= usize::MAX,
            canvas_width(canvas) == width,
            canvas_height(canvas) == height,
            canvas_samples(canvas).len() == 3 * width * height,
            y <= height,
            forall|k: int|
                0 <= k < y * width ==> #[trigger] rgb_at(canvas_samples(canvas), k) == (
                    levels@[k],
                    levels@[k],
                    levels@[k],
                ),
        decreases height - y,
    {
        let mut x: u32 = 0;
        while x < width
            invariant
                levels.len() == width * height,
                3 * width * height <= usize::MAX,
                canvas_width(canvas) == width,
                canvas_height(canvas) == height,
                canvas_samples(canvas).len() == 3 * width * height,
                y < height,
                x <= width,
                forall|k: int|
                    0 <= k < y * width + x ==> #[trigger] rgb_at(canvas_samples(canvas), k) == (
                        levels@[k],
                        levels@[k],
                        levels@[k],
                    ),
            decreases width - x,
        {
            assert(y * width + x < width * height && 3 * (y * width + x) + 3 <= 3 * width
                * height) by (nonlinear_arith)
                requires
                    x < width,
                    y < height,
            ;
            let k: usize = y as usize * width as usize + x as usize;
            let v = levels[k];
            let ghost before = canvas_samples(canvas);
            canvas.put_rgb(x, y, [v, v, v]);
            assert(canvas_samples(canvas) == before.update(3 * k, v).update(3 * k + 1, v).update(
                3 * k + 2,
                v,
            ));
            assert forall|j: int| 0 <= j < k implies #[trigger] rgb_at(canvas_samples(canvas), j)
                == rgb_at(before, j) by {}
            assert(rgb_at(canvas_samples(canvas), k as int) == (v, v, v));
            x = x + 1;
        }
        assert(y * width + width == (y + 1) * width) by (nonlinear_arith);
        y = y + 1;
    }
    assert(y * width == levels.len() && 3 * width * height == 3 * levels.len()) by (nonlinear_arith)
        requires
            y == height,
            levels.len() == width * height,
    ;
    canvas.into_samples()
}

/// Every pixel of an image packed by `grayscale_pixels` from one level per
/// pixel of a `width` by `height` grid is set, and its red, green and blue
/// channels are equal to that pixel's level.
pub proof fn lemma_every_pixel_grey(levels: Seq<u8>, buf: Seq<u8>, width: nat, height: nat)
    requires
        levels.len() == width * height,
        is_grey_image(levels, buf),
    ensures
        buf.len() == 3 * width * height,
        forall|x: int, y: int|
            0 <= x < width && 0 <= y < height ==> {
                let k = #[trigger] pixel_index(x, y, width as int);
                &&& 0 <= k < levels.len()
                &&& buf[3 * k] == levels[k]
                &&& buf[3 * k + 1] == levels[k]
                &&& buf[3 * k + 2] == levels[k]
            },
{
    assert(buf.len() == 3 * width * height) by (nonlinear_arith)
        requires
            buf.len() == 3 * levels.len(),
            levels.len() == width * height,
    ;
    assert forall|x: int, y: int| 0 <= x < width && 0 <= y < height implies {
        let k = #[trigger] pixel_index(x, y, width as int);
        &&& 0 <= k < levels.len()
        &&& buf[3 * k] == levels[k]
        &&& buf[3 * k + 1] == levels[k]
        &&& buf[3 * k + 2] == levels[k]
    } by {
        let k = pixel_index(x, y, width as int);
        assert(0 <= k < width * height) by (nonlinear_arith)
            requires
                0 <= x < width,
                0 <= y < height,
                k == y * width + x,
        ;
        assert(rgb_at(buf, k) == (levels[k], levels[k], levels[k]));
    }
}

} // verus!
