//! Building the foreground set from the brightness of an image's pixels.

use crate::geometry::Pixel;
use crate::pixel_set::PixelSet;
use vstd::prelude::*;

verus! {

/// The position of `p` in a walk over an image of the given width, row by row
/// from the top and from left to right within a row.
pub open spec fn raster_index(width: int, p: Pixel) -> int {
    p.y * width + p.x
}

/// The pixel `p` lies in the image and is bright. `bright` holds one flag per
/// pixel in raster order.
pub open spec fn is_foreground(width: int, height: int, bright: Seq<bool>, p: Pixel) -> bool {
    p.x < width && p.y < height && bright[raster_index(width, p)]
}

/// The raster index of a pixel within an image is below the number of its
/// pixels, and rows do not overlap.
pub proof fn lemma_raster_index(width: int, height: int, x: int, y: int)
    requires
        0 <= x < width,
        0 <= y < height,
    ensures
        0 <= y * width + x < width * height,
        (y + 1) * width == y * width + width,
        0 <= y * width,
{
    assert((y + 1) * width == y * width + width) by (nonlinear_arith);
    assert((y + 1) * width <= height * width) by (nonlinear_arith)
        requires
            y + 1 <= height,
            width >= 0,
    ;
    assert(0 <= y * width) by (nonlinear_arith)
        requires
            0 <= y,
            0 <= width,
    ;
    assert(height * width == width * height) by (nonlinear_arith);
}

/// Pixels of an image are ordered by row first: a pixel of an earlier row has
/// the smaller raster index.
pub proof fn lemma_raster_rows(width: int, x1: int, y1: int, x2: int, y2: int)
    requires
        0 <= x1 < width,
        0 <= x2 < width,
        0 <= y1 < y2,
    ensures
        y1 * width + x1 < y2 * width + x2,
{
    assert((y1 + 1) * width <= y2 * width) by (nonlinear_arith)
        requires
            y1 + 1 <= y2,
            width >= 0,
    ;
    assert((y1 + 1) * width == y1 * width + width) by (nonlinear_arith);
}

/// Collects the bright pixels of an image of `width` by `height` pixels.
/// `bright` tells of each pixel, in raster order, whether it is bright. The
/// set holds the bright pixels in raster order.
pub fn foreground(width: u32, height: u32, bright: &Vec<bool>) -> (set: PixelSet)
    requires
        bright@.len() == width as int * height as int,
    ensures
        set.wf(),
        forall|p: Pixel|
            #[trigger] set@.contains(p) <==> is_foreground(
                width as int,
                height as int,
                bright@,
                p,
            ),
        forall|i: int, j: int|
            0 <= i < j < set@.len() ==> raster_index(width as int, set@[i]) < raster_index(
                width as int,
                set@[j],
            ),
{
    let mut set = PixelSet::new();
    let total = bright.len();
    let mut idx: usize = 0;
    let mut y: u32 = 0;
    assert(0 * (width as int) == 0) by (nonlinear_arith);
    while y < height
        invariant
            bright@.len() == width as int * height as int,
            y <= height,
            idx == y as int * width as int,
            total == bright@.len(),
            set.wf(),
            forall|p: Pixel|
                set@.contains(p) <==> is_foreground(width as int, height as int, bright@, p) && p.y
                    < y,
            forall|i: int, j: int|
                0 <= i < j < set@.len() ==> raster_index(width as int, set@[i]) < raster_index(
                    width as int,
                    set@[j],
                ),
            forall|i: int| 0 <= i < set@.len() ==> raster_index(width as int, set@[i]) < idx,
        decreases height - y,
    {
        let mut x: u32 = 0;
        while x < width
            invariant
                bright@.len() == width as int * height as int,
                y < height,
                x <= width,
                idx == y as int * width as int + x as int,
                total == bright@.len(),
                set.wf(),
                forall|p: Pixel|
                    set@.contains(p) <==> is_foreground(width as int, height as int, bright@, p)
                        && (p.y < y || (p.y == y && p.x < x)),
                forall|i: int, j: int|
                    0 <= i < j < set@.len() ==> raster_index(width as int, set@[i])
                        < raster_index(width as int, set@[j]),
                forall|i: int| 0 <= i < set@.len() ==> raster_index(width as int, set@[i]) < idx,
            decreases width - x,
        {
            proof {
                lemma_raster_index(width as int, height as int, x as int, y as int);
            }
            let ghost before = set@;
            let p = Pixel { x, y };
            assert(is_foreground(width as int, height as int, bright@, p) == bright@[idx as int]);
            if bright[idx] {
                let added = set.insert(p);
                assert(added);
                assert forall|q: Pixel| set@.contains(q) <==> before.contains(q) || q == p by {
                    if before.contains(q) {
                        let i = choose|i: int| 0 <= i < before.len() && before[i] == q;
                        assert(set@[i] == q);
                    }
                    assert(set@[before.len() as int] == p);
                }
            }
            idx = idx + 1;
            x = x + 1;
            assert forall|q: Pixel|
                set@.contains(q) <==> is_foreground(width as int, height as int, bright@, q) && (q.y
                    < y || (q.y == y && q.x < x)) by {
                if q.y == y && q.x == x - 1 {
                    assert(q == p);
                }
                assert(before.contains(q) <==> is_foreground(
                    width as int,
                    height as int,
                    bright@,
                    q,
                ) && (q.y < y || (q.y == y && q.x < x - 1)));
                assert(set@.contains(q) <==> before.contains(q) || (q == p && bright@[idx - 1]));
            }
        }
        assert((y + 1) * width == y * width + width) by (nonlinear_arith);
        y = y + 1;
    }
    set
}

} // verus!
