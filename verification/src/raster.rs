//! Cutting a glyph out of the canvas it was drawn on.
//!
//! A canvas is a row-major buffer of 32-bit pixels; a pixel that is zero is
//! blank.

use crate::RasterizedGlyph;
use vstd::prelude::*;

verus! {

/// The smallest frame around what is drawn on a canvas: the columns from
/// `left` up to `right` and the rows from `top` up to `bottom`.
#[derive(Debug, Clone, Copy, PartialEq, Eq)]
pub struct Bounds {
    pub left: usize,
    pub top: usize,
    pub right: usize,
    pub bottom: usize,
}

/// The index of the pixel in column `x` of row `y` on a canvas of the given
/// width.
pub open spec fn at(width: int, x: int, y: int) -> int {
    y * width + x
}

/// Whether column `x` of the canvas is blank.
pub open spec fn blank_column(pixels: Seq<u32>, width: int, height: int, x: int) -> bool {
    forall|y: int| 0 <= y < height ==> pixels[#[trigger] at(width, x, y)] == 0
}

/// Whether row `y` of the canvas is blank.
pub open spec fn blank_row(pixels: Seq<u32>, width: int, height: int, y: int) -> bool {
    forall|x: int| 0 <= x < width ==> pixels[#[trigger] at(width, x, y)] == 0
}

/// A pixel of the canvas has its own place in the buffer.
pub proof fn lemma_at(width: int, height: int, x: int, y: int)
    requires
        0 <= x < width,
        0 <= y < height,
    ensures
        0 <= y * width <= at(width, x, y) < width * height,
        at(width, x, y) / width == y,
        at(width, x, y) % width == x,
{
    assert(0 <= y * width <= y * width + x < width * height) by (nonlinear_arith)
        requires
            0 <= x < width,
            0 <= y < height,
    ;
    vstd::arithmetic::div_mod::lemma_fundamental_div_mod_converse(y * width + x, width, y, x);
}

impl Bounds {
    /// Whether these are the bounds of what is drawn on the canvas: the
    /// columns in front of `left` and from `right` on are blank and the
    /// columns next to them inside are not, and so for the rows with `top`
    /// and `bottom`. On a blank canvas `left` is the width, `top` the height
    /// and `right` and `bottom` are 0.
    pub open spec fn tight(self, pixels: Seq<u32>, width: int, height: int) -> bool {
        &&& self.left <= width
        &&& forall|x: int| 0 <= x < self.left ==> blank_column(pixels, width, height, x)
        &&& self.left < width ==> !blank_column(pixels, width, height, self.left as int)
        &&& self.right <= width
        &&& forall|x: int| self.right <= x < width ==> blank_column(pixels, width, height, x)
        &&& self.right > 0 ==> !blank_column(pixels, width, height, self.right - 1)
        &&& self.top <= height
        &&& forall|y: int| 0 <= y < self.top ==> blank_row(pixels, width, height, y)
        &&& self.top < height ==> !blank_row(pixels, width, height, self.top as int)
        &&& self.bottom <= height
        &&& forall|y: int| self.bottom <= y < height ==> blank_row(pixels, width, height, y)
        &&& self.bottom > 0 ==> !blank_row(pixels, width, height, self.bottom - 1)
    }
}

/// Whether a column of the canvas is blank.
pub fn column_is_blank(pixels: &[u32], width: usize, height: usize, x: usize) -> (blank: bool)
    requires
        pixels.len() == width * height,
        x < width,
    ensures
        blank == blank_column(pixels@, width as int, height as int, x as int),
{
    let mut y: usize = 0;
    while y < height
        invariant
            pixels.len() == width * height,
            x < width,
            y <= height,
            forall|k: int| 0 <= k < y ==> pixels@[#[trigger] at(width as int, x as int, k)] == 0,
        decreases height - y,
    {
        proof {
            lemma_at(width as int, height as int, x as int, y as int);
        }
        if pixels[y * width + x] != 0 {
            return false;
        }
        y += 1;
    }
    true
}

/// Whether a row of the canvas is blank.
pub fn row_is_blank(pixels: &[u32], width: usize, height: usize, y: usize) -> (blank: bool)
    requires
        pixels.len() == width * height,
        y < height,
    ensures
        blank == blank_row(pixels@, width as int, height as int, y as int),
{
    let mut x: usize = 0;
    while x < width
        invariant
            pixels.len() == width * height,
            y < height,
            x <= width,
            forall|k: int| 0 <= k < x ==> pixels@[#[trigger] at(width as int, k, y as int)] == 0,
        decreases width - x,
    {
        proof {
            lemma_at(width as int, height as int, x as int, y as int);
        }
        if pixels[y * width + x] != 0 {
            return false;
        }
        x += 1;
    }
    true
}

/// Finds the smallest frame around what is drawn on the canvas.
pub fn tightest_bounds(pixels: &[u32], width: usize, height: usize) -> (bounds: Bounds)
    requires
        pixels.len() == width * height,
    ensures
        bounds.tight(pixels@, width as int, height as int),
{
    let mut left: usize = 0;
    while left < width && column_is_blank(pixels, width, height, left)
        invariant
            pixels.len() == width * height,
            left <= width,
            forall|x: int| 0 <= x < left ==> blank_column(pixels@, width as int, height as int, x),
        decreases width - left,
    {
        left += 1;
    }
    let mut right: usize = width;
    while right > 0 && column_is_blank(pixels, width, height, right - 1)
        invariant
            pixels.len() == width * height,
            right <= width,
            forall|x: int|
                right <= x < width ==> blank_column(pixels@, width as int, height as int, x),
        decreases right,
    {
        right -= 1;
    }
    let mut top: usize = 0;
    while top < height && row_is_blank(pixels, width, height, top)
        invariant
            pixels.len() == width * height,
            top <= height,
            forall|y: int| 0 <= y < top ==> blank_row(pixels@, width as int, height as int, y),
        decreases height - top,
    {
        top += 1;
    }
    let mut bottom: usize = height;
    while bottom > 0 && row_is_blank(pixels, width, height, bottom - 1)
        invariant
            pixels.len() == width * height,
            bottom <= height,
            forall|y: int|
                bottom <= y < height ==> blank_row(pixels@, width as int, height as int, y),
        decreases bottom,
    {
        bottom -= 1;
    }
    Bounds { left, top, right, bottom }
}

/// Turns the canvas upside down: the first row becomes the last, and so on.
pub fn flip_rows(pixels: &mut [u32], width: usize, height: usize)
    requires
        old(pixels).len() == width * height,
    ensures
        final(pixels).len() == old(pixels).len(),
        forall|x: int, y: int|
            0 <= x < width && 0 <= y < height ==> final(pixels)@[#[trigger] at(width as int, x, y)]
                == old(pixels)@[at(width as int, x, height - 1 - y)],
{
    let mut y: usize = 0;
    while y < height / 2
        invariant
            pixels.len() == width * height,
            pixels.len() == old(pixels).len(),
            y <= height / 2,
            forall|x: int, k: int|
                0 <= x < width && (0 <= k < y || height - y <= k < height) ==> pixels@[#[trigger] at(
                    width as int,
                    x,
                    k,
                )] == old(pixels)@[at(width as int, x, height - 1 - k)],
            forall|x: int, k: int|
                0 <= x < width && y <= k < height - y ==> pixels@[#[trigger] at(width as int, x, k)]
                    == old(pixels)@[at(width as int, x, k)],
        decreases height / 2 - y,
    {
        let y_inv = height - y - 1;
        let ghost before = pixels@;
        let mut x: usize = 0;
        while x < width
            invariant
                pixels.len() == width * height,
                pixels.len() == old(pixels).len(),
                y < height / 2,
                y_inv == height - y - 1,
                x <= width,
                before.len() == pixels.len(),
                forall|c: int, k: int|
                    0 <= c < width && 0 <= k < height && k != y && k != y_inv ==> pixels@[#[trigger] at(
                        width as int,
                        c,
                        k,
                    )] == before[at(width as int, c, k)],
                forall|c: int|
                    0 <= c < x ==> pixels@[#[trigger] at(width as int, c, y as int)] == before[at(
                        width as int,
                        c,
                        y_inv as int,
                    )] && pixels@[at(width as int, c, y_inv as int)] == before[at(
                        width as int,
                        c,
                        y as int,
                    )],
                forall|c: int|
                    x <= c < width ==> pixels@[#[trigger] at(width as int, c, y as int)] == before[at(
                        width as int,
                        c,
                        y as int,
                    )] && pixels@[at(width as int, c, y_inv as int)] == before[at(
                        width as int,
                        c,
                        y_inv as int,
                    )],
            decreases width - x,
        {
            proof {
                lemma_at(width as int, height as int, x as int, y as int);
                lemma_at(width as int, height as int, x as int, y_inv as int);
            }
            let upper = y * width + x;
            let lower = y_inv * width + x;
            let ghost now = pixels@;
            let above = pixels[upper];
            let below = pixels[lower];
            pixels[upper] = below;
            pixels[lower] = above;
            proof {
                assert(pixels@ == now.update(upper as int, below).update(lower as int, above));
                assert forall|c: int, k: int|
                    0 <= c < width && 0 <= k < height && k != y && k != y_inv implies pixels@[#[trigger] at(
                    width as int,
                    c,
                    k,
                )] == before[at(width as int, c, k)] by {
                    lemma_at(width as int, height as int, c, k);
                    assert(now[at(width as int, c, k)] == before[at(width as int, c, k)]);
                }
                assert forall|c: int| 0 <= c < x + 1 implies pixels@[#[trigger] at(
                    width as int,
                    c,
                    y as int,
                )] == before[at(width as int, c, y_inv as int)] && pixels@[at(
                    width as int,
                    c,
                    y_inv as int,
                )] == before[at(width as int, c, y as int)] by {
                    lemma_at(width as int, height as int, c, y as int);
                    lemma_at(width as int, height as int, c, y_inv as int);
                    if c < x {
                        assert(now[at(width as int, c, y as int)] == before[at(
                            width as int,
                            c,
                            y_inv as int,
                        )]);
                        assert(now[at(width as int, c, y_inv as int)] == before[at(
                            width as int,
                            c,
                            y as int,
                        )]);
                    } else {
                        assert(now[at(width as int, c, y as int)] == before[at(
                            width as int,
                            c,
                            y as int,
                        )]);
                        assert(now[at(width as int, c, y_inv as int)] == before[at(
                            width as int,
                            c,
                            y_inv as int,
                        )]);
                    }
                }
                assert forall|c: int| x + 1 <= c < width implies pixels@[#[trigger] at(
                    width as int,
                    c,
                    y as int,
                )] == before[at(width as int, c, y as int)] && pixels@[at(
                    width as int,
                    c,
                    y_inv as int,
                )] == before[at(width as int, c, y_inv as int)] by {
                    lemma_at(width as int, height as int, c, y as int);
                    lemma_at(width as int, height as int, c, y_inv as int);
                    assert(now[at(width as int, c, y as int)] == before[at(
                        width as int,
                        c,
                        y as int,
                    )]);
                    assert(now[at(width as int, c, y_inv as int)] == before[at(
                        width as int,
                        c,
                        y_inv as int,
                    )]);
                }
            }
            x += 1;
        }
        proof {
            assert forall|c: int, k: int|
                0 <= c < width && (0 <= k < y + 1 || height - (y + 1) <= k < height) implies pixels@[#[trigger] at(
                width as int,
                c,
                k,
            )] == old(pixels)@[at(width as int, c, height - 1 - k)] by {
                if k == y {
                    assert(before[at(width as int, c, y_inv as int)] == old(pixels)@[at(
                        width as int,
                        c,
                        y_inv as int,
                    )]);
                } else if k == y_inv {
                    assert(before[at(width as int, c, y as int)] == old(pixels)@[at(
                        width as int,
                        c,
                        y as int,
                    )]);
                } else {
                    assert(before[at(width as int, c, k)] == old(pixels)@[at(
                        width as int,
                        c,
                        height - 1 - k,
                    )]);
                }
            }
            assert forall|c: int, k: int|
                0 <= c < width && y + 1 <= k < height - (y + 1) implies pixels@[#[trigger] at(
                width as int,
                c,
                k,
            )] == old(pixels)@[at(width as int, c, k)] by {
                assert(before[at(width as int, c, k)] == old(pixels)@[at(width as int, c, k)]);
            }
        }
        y += 1;
    }
    proof {
        assert forall|x: int, k: int| 0 <= x < width && 0 <= k < height implies pixels@[#[trigger] at(
            width as int,
            x,
            k,
        )] == old(pixels)@[at(width as int, x, height - 1 - k)] by {
            if y <= k < height - y {
                // An odd height leaves the middle row where it is.
                assert(k == height - 1 - k);
            }
        }
    }
}

/// The gray value of a pixel: its lowest byte.
pub open spec fn gray(pixel: u32) -> u8 {
    (pixel & 0xff) as u8
}

/// Whether `data` holds the gray values of the part of the canvas that the
/// `frame` encloses, row by row.
pub open spec fn cropped(data: Seq<u8>, pixels: Seq<u32>, width: int, frame: Bounds) -> bool {
    &&& data.len() == (frame.right - frame.left) * (frame.bottom - frame.top)
    &&& forall|x: int, y: int|
        0 <= x < frame.right - frame.left && 0 <= y < frame.bottom - frame.top ==> data[#[trigger] at(
            frame.right - frame.left,
            x,
            y,
        )] == gray(pixels[at(width, frame.left + x, frame.top + y)])
}

/// Copies the gray values of the part of the canvas that `frame` encloses.
pub fn crop(pixels: &[u32], width: usize, height: usize, frame: &Bounds) -> (data: Vec<u8>)
    requires
        pixels.len() == width * height,
        frame.left <= frame.right <= width,
        frame.top <= frame.bottom <= height,
    ensures
        cropped(data@, pixels@, width as int, *frame),
{
    let frame_width = frame.right - frame.left;
    let frame_height = frame.bottom - frame.top;
    assert(frame_width * frame_height <= width * height) by (nonlinear_arith)
        requires
            0 <= frame_width <= width,
            0 <= frame_height <= height,
    ;
    let mut data: Vec<u8> = Vec::with_capacity(frame_width * frame_height);
    let mut y: usize = 0;
    while y < frame_height
        invariant
            pixels.len() == width * height,
            frame.left <= frame.right <= width,
            frame.top <= frame.bottom <= height,
            frame_width == frame.right - frame.left,
            frame_height == frame.bottom - frame.top,
            y <= frame_height,
            data@.len() == y * frame_width,
            forall|c: int, k: int|
                0 <= c < frame_width && 0 <= k < y ==> data@[#[trigger] at(frame_width as int, c, k)]
                    == gray(pixels@[at(width as int, frame.left + c, frame.top + k)]),
        decreases frame_height - y,
    {
        assert(0 <= (y + frame.top) * width <= width * height) by (nonlinear_arith)
            requires
                0 <= y + frame.top < height,
                0 <= width,
        ;
        let row = (y + frame.top) * width;
        let mut x: usize = 0;
        while x < frame_width
            invariant
                pixels.len() == width * height,
                frame.left <= frame.right <= width,
                frame.top <= frame.bottom <= height,
                frame_width == frame.right - frame.left,
                frame_height == frame.bottom - frame.top,
                y < frame_height,
                x <= frame_width,
                row == (y + frame.top) * width,
                data@.len() == y * frame_width + x,
                forall|c: int, k: int|
                    0 <= c < frame_width && 0 <= k < y ==> data@[#[trigger] at(
                        frame_width as int,
                        c,
                        k,
                    )] == gray(pixels@[at(width as int, frame.left + c, frame.top + k)]),
                forall|c: int|
                    0 <= c < x ==> data@[#[trigger] at(frame_width as int, c, y as int)] == gray(
                        pixels@[at(width as int, frame.left + c, frame.top + y)],
                    ),
            decreases frame_width - x,
        {
            proof {
                lemma_at(width as int, height as int, frame.left + x, y + frame.top);
            }
            let pixel = pixels[row + frame.left + x];
            let ghost before = data@;
            data.push((pixel & 0xff) as u8);
            proof {
                assert forall|c: int, k: int| 0 <= c < frame_width && 0 <= k < y implies data@[#[trigger] at(
                    frame_width as int,
                    c,
                    k,
                )] == gray(pixels@[at(width as int, frame.left + c, frame.top + k)]) by {
                    lemma_at(frame_width as int, y as int, c, k);
                    assert(before[at(frame_width as int, c, k)] == gray(
                        pixels@[at(width as int, frame.left + c, frame.top + k)],
                    ));
                }
                assert forall|c: int| 0 <= c < x + 1 implies data@[#[trigger] at(
                    frame_width as int,
                    c,
                    y as int,
                )] == gray(pixels@[at(width as int, frame.left + c, frame.top + y)]) by {
                    if c < x {
                        assert(before[at(frame_width as int, c, y as int)] == gray(
                            pixels@[at(width as int, frame.left + c, frame.top + y)],
                        ));
                    }
                }
            }
            x += 1;
        }
        assert((y + 1) * frame_width == y * frame_width + frame_width) by (nonlinear_arith);
        y += 1;
    }
    assert(frame_height * frame_width == frame_width * frame_height) by (nonlinear_arith);
    data
}

/// `Vec::into_boxed_slice`. What is believed of it, not proved: the box
/// holds the same bytes.
#[verifier::external_body]
fn boxed(data: Vec<u8>) -> (bytes: Box<[u8]>)
    ensures
        bytes@ == data@,
{
    data.into_boxed_slice()
}

/// A canvas has one frame that is tight around what is drawn on it.
pub proof fn lemma_tight_is_one(
    one: Bounds,
    other: Bounds,
    pixels: Seq<u32>,
    width: int,
    height: int,
)
    requires
        one.tight(pixels, width, height),
        other.tight(pixels, width, height),
    ensures
        one == other,
{
    if one.left < other.left {
        assert(blank_column(pixels, width, height, one.left as int));
    }
    if other.left < one.left {
        assert(blank_column(pixels, width, height, other.left as int));
    }
    if one.right < other.right {
        assert(blank_column(pixels, width, height, other.right - 1));
    }
    if other.right < one.right {
        assert(blank_column(pixels, width, height, one.right - 1));
    }
    if one.top < other.top {
        assert(blank_row(pixels, width, height, one.top as int));
    }
    if other.top < one.top {
        assert(blank_row(pixels, width, height, other.top as int));
    }
    if one.bottom < other.bottom {
        assert(blank_row(pixels, width, height, other.bottom - 1));
    }
    if other.bottom < one.bottom {
        assert(blank_row(pixels, width, height, one.bottom - 1));
    }
}

/// Whether `glyph` is what is drawn on the canvas, cut out: the part of the
/// canvas inside `frame`, which lies at the offsets `frame.left` and
/// `frame.top`; or, where the frame's left edge lies right of its right
/// edge, as on a blank canvas, a glyph without area.
pub open spec fn cut_out(
    glyph: RasterizedGlyph,
    character: char,
    pixels: Seq<u32>,
    width: int,
    frame: Bounds,
) -> bool {
    &&& glyph.character == character
    &&& if frame.left > frame.right {
        &&& glyph.x_offset == 0
        &&& glyph.y_offset == 0
        &&& glyph.width == 0
        &&& glyph.height == 0
        &&& glyph.data@.len() == 0
    } else {
        &&& glyph.x_offset == frame.left
        &&& glyph.y_offset == frame.top
        &&& glyph.width == frame.right - frame.left
        &&& glyph.height == frame.bottom - frame.top
        &&& cropped(glyph.data@, pixels, width, frame)
    }
}

/// Cuts the glyph of `character` out of the canvas it was drawn on bottom
/// row first: turns the canvas upside down, finds the frame around what is
/// drawn, and copies the gray values inside it. The sides of the canvas
/// must fit an `i32`, and a canvas without columns must have no rows.
pub fn cut_glyph(character: char, pixels: &mut [u32], width: usize, height: usize) -> (glyph:
    RasterizedGlyph)
    requires
        old(pixels).len() == width * height,
        width > 0 || height == 0,
        width <= i32::MAX,
        height <= i32::MAX,
    ensures
        final(pixels).len() == old(pixels).len(),
        forall|x: int, y: int|
            0 <= x < width && 0 <= y < height ==> final(pixels)@[#[trigger] at(width as int, x, y)]
                == old(pixels)@[at(width as int, x, height - 1 - y)],
        exists|frame: Bounds|
            #[trigger] frame.tight(final(pixels)@, width as int, height as int) && cut_out(
                glyph,
                character,
                final(pixels)@,
                width as int,
                frame,
            ),
{
    flip_rows(pixels, width, height);
    let frame = tightest_bounds(pixels, width, height);
    if frame.left > frame.right {
        return RasterizedGlyph {
            character,
            x_offset: 0,
            y_offset: 0,
            width: 0,
            height: 0,
            data: boxed(Vec::new()),
        };
    }
    proof {
        if frame.top > frame.bottom {
            // No row has ink, so no column has, and the canvas has no column.
            assert(frame.left == width) by {
                if frame.left < width {
                    let y = choose|y: int|
                        0 <= y < height && pixels@[#[trigger] at(
                            width as int,
                            frame.left as int,
                            y,
                        )] != 0;
                    assert(blank_row(pixels@, width as int, height as int, y));
                }
            }
            assert(frame.right == 0) by {
                if frame.right > 0 {
                    let y = choose|y: int|
                        0 <= y < height && pixels@[#[trigger] at(
                            width as int,
                            frame.right - 1,
                            y,
                        )] != 0;
                    assert(blank_row(pixels@, width as int, height as int, y));
                }
            }
        }
    }
    let data = crop(pixels, width, height, &frame);
    RasterizedGlyph {
        character,
        x_offset: frame.left as i32,
        y_offset: frame.top as i32,
        width: frame.right - frame.left,
        height: frame.bottom - frame.top,
        data: boxed(data),
    }
}

} // verus!
