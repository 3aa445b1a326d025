//! Laying out the characters of a text along a pen that moves by each
//! character's advance and starts a new line at each line feed.

use crate::GlyphPositioning;
use vstd::prelude::*;

verus! {

/// Where the pen stands after the first `n` characters. It starts at the
/// origin, moves right by the advance of each character, and goes back to
/// the left edge, one line down, after a line feed.
pub open spec fn pen(text: Seq<char>, advances: Seq<i32>, line_height: int, n: nat) -> (int, int)
    decreases n,
{
    if n == 0 {
        (0, 0)
    } else {
        let (x, y) = pen(text, advances, line_height, (n - 1) as nat);
        if text[n - 1] == '\n' {
            (0, y + line_height)
        } else {
            (x + advances[n - 1], y)
        }
    }
}

/// How far the first `n` characters reach: the rightmost place of the pen
/// after any of them, and the lowest bottom of a line that the pen stood on
/// after any of them.
pub open spec fn extent(text: Seq<char>, advances: Seq<i32>, line_height: int, n: nat) -> (int, int)
    decreases n,
{
    if n == 0 {
        (0, 0)
    } else {
        let (width, height) = extent(text, advances, line_height, (n - 1) as nat);
        let (x, y) = pen(text, advances, line_height, n);
        (
            if x > width {
                x
            } else {
                width
            },
            if y + line_height > height {
                y + line_height
            } else {
                height
            },
        )
    }
}

/// Whether the pen stays inside the range of `i32` on its way over the first
/// `n` characters, and with it the bottom of each line it stands on.
pub open spec fn pen_in_range(text: Seq<char>, advances: Seq<i32>, line_height: int, n: nat) -> bool {
    forall|k: nat|
        k <= n ==> {
            let (x, y) = #[trigger] pen(text, advances, line_height, k);
            &&& i32::MIN <= x <= i32::MAX
            &&& i32::MIN <= y <= i32::MAX
            &&& i32::MIN <= y + line_height <= i32::MAX
        }
}

/// Whether `placed` puts each character where the pen stands in front of it.
pub open spec fn follows_pen(
    placed: Seq<GlyphPositioning>,
    text: Seq<char>,
    advances: Seq<i32>,
    line_height: int,
) -> bool {
    &&& placed.len() == advances.len()
    &&& forall|i: int|
        0 <= i < placed.len() ==> {
            let (x, y) = pen(text, advances, line_height, i as nat);
            &&& (#[trigger] placed[i]).character == text[i]
            &&& placed[i].index == i
            &&& placed[i].x == x
            &&& placed[i].y == y
            &&& placed[i].caret_x == x
            &&& placed[i].caret_y == y
        }
}

/// The place of a character in front of which the pen stands at `x`, `y`.
pub fn at_pen(character: char, index: usize, x: i32, y: i32) -> (place: GlyphPositioning)
    ensures
        place == (GlyphPositioning { character, index, x, y, caret_x: x, caret_y: y }),
{
    GlyphPositioning { character, index, x, y, caret_x: x, caret_y: y }
}

/// Whether the text can be placed: it has a character for each advance, and
/// the pen stays inside the range of `i32`.
pub open spec fn can_place(text: Seq<char>, advances: Seq<i32>, line_height: int) -> bool {
    advances.len() <= text.len() && pen_in_range(text, advances, line_height, advances.len())
}

/// Places one character for each advance, in the order of the text, and says
/// how wide and how high the text comes out. Gives nothing where the text
/// cannot be placed.
pub fn place_text(text: &Vec<char>, advances: &Vec<i32>, line_height: i32) -> (shaped: Option<
    (Vec<GlyphPositioning>, (i32, i32)),
>)
    ensures
        shaped is Some <==> can_place(text@, advances@, line_height as int),
        shaped matches Some((placed, size)) ==> {
            &&& follows_pen(placed@, text@, advances@, line_height as int)
            &&& (size.0 as int, size.1 as int) == extent(
                text@,
                advances@,
                line_height as int,
                advances@.len(),
            )
        },
{
    if advances.len() > text.len() {
        return None;
    }
    let mut placed: Vec<GlyphPositioning> = Vec::with_capacity(advances.len());
    let mut max_w: i32 = 0;
    let mut max_h: i32 = 0;
    let mut xoff: i32 = 0;
    let mut yoff: i32 = 0;
    let mut i: usize = 0;
    while i < advances.len()
        invariant
            i <= advances@.len(),
            advances@.len() <= text@.len(),
            pen_in_range(text@, advances@, line_height as int, i as nat),
            (xoff as int, yoff as int) == pen(text@, advances@, line_height as int, i as nat),
            (max_w as int, max_h as int) == extent(text@, advances@, line_height as int, i as nat),
            placed@.len() == i,
            forall|k: int|
                0 <= k < i ==> {
                    let (x, y) = pen(text@, advances@, line_height as int, k as nat);
                    &&& (#[trigger] placed@[k]).character == text@[k]
                    &&& placed@[k].index == k
                    &&& placed@[k].x == x
                    &&& placed@[k].y == y
                    &&& placed@[k].caret_x == x
                    &&& placed@[k].caret_y == y
                },
        decreases advances@.len() - i,
    {
        let character = text[i];
        placed.push(at_pen(character, i, xoff, yoff));
        let ghost next = (i + 1) as nat;
        proof {
            assert(pen(text@, advances@, line_height as int, next).0 == if character == '\n' {
                0
            } else {
                xoff + advances@[i as int]
            });
        }
        if character == '\n' {
            xoff = 0;
            yoff = match yoff.checked_add(line_height) {
                Some(below) => below,
                None => {
                    assert(!pen_in_range(text@, advances@, line_height as int, advances@.len())) by {
                        let (x, y) = pen(text@, advances@, line_height as int, next);
                    }
                    return None;
                },
            };
        } else {
            xoff = match xoff.checked_add(advances[i]) {
                Some(right) => right,
                None => {
                    assert(!pen_in_range(text@, advances@, line_height as int, advances@.len())) by {
                        let (x, y) = pen(text@, advances@, line_height as int, next);
                    }
                    return None;
                },
            };
        }
        let bottom = match yoff.checked_add(line_height) {
            Some(bottom) => bottom,
            None => {
                assert(!pen_in_range(text@, advances@, line_height as int, advances@.len())) by {
                    let (x, y) = pen(text@, advances@, line_height as int, next);
                }
                return None;
            },
        };
        if xoff > max_w {
            max_w = xoff;
        }
        if bottom > max_h {
            max_h = bottom;
        }
        proof {
            assert forall|k: nat| k <= next implies {
                let (x, y) = #[trigger] pen(text@, advances@, line_height as int, k);
                &&& i32::MIN <= x <= i32::MAX
                &&& i32::MIN <= y <= i32::MAX
                &&& i32::MIN <= y + line_height <= i32::MAX
            } by {
                if k < next {
                    assert(k <= i as nat);
                }
            }
        }
        i += 1;
    }
    Some((placed, (max_w, max_h)))
}

} // verus!
