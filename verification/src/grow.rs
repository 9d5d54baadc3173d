//! Testing a disc against the pixel set and growing the largest disc around a
//! seed.

use crate::geometry::{disc_point, lemma_within_bounds, offset_within, representable, Circle, Pixel};
use crate::pixel_set::PixelSet;
use vstd::prelude::*;

verus! {

/// The order `s` has the point `(x, y)` among its pixels.
pub open spec fn holds(s: Seq<Pixel>, x: int, y: int) -> bool {
    representable(x, y) && s.contains(Pixel { x: x as u32, y: y as u32 })
}

/// Every point of the disc of radius `r` around `(cx, cy)` that has no
/// negative component is among the pixels of `s`.
pub open spec fn disc_valid(s: Seq<Pixel>, cx: int, cy: int, r: int) -> bool {
    forall|x: int, y: int| #[trigger] disc_point(cx, cy, r, x, y) ==> holds(s, x, y)
}

/// The largest radius that growth reaches from the valid radius `r`: the
/// radius goes up by one as long as it stays below `max_r` and the next disc
/// is valid.
pub open spec fn grown_from(s: Seq<Pixel>, cx: int, cy: int, r: int, max_r: int) -> int
    decreases max_r - r,
{
    if r < max_r && disc_valid(s, cx, cy, r + 1) {
        grown_from(s, cx, cy, r + 1, max_r)
    } else {
        r
    }
}

/// The radius of the circle grown around `(cx, cy)`: where the disc of radius
/// `min_r` is valid and `min_r` does not exceed `max_r`, the largest radius
/// reached from it; otherwise 1.
pub open spec fn grown_radius(s: Seq<Pixel>, cx: int, cy: int, min_r: int, max_r: int) -> int {
    if min_r <= max_r && disc_valid(s, cx, cy, min_r) {
        grown_from(s, cx, cy, min_r, max_r)
    } else {
        1
    }
}

/// A valid disc stays valid when its radius shrinks.
pub proof fn lemma_disc_valid_shrinks(s: Seq<Pixel>, cx: int, cy: int, small: int, large: int)
    requires
        0 <= small <= large,
        disc_valid(s, cx, cy, large),
    ensures
        disc_valid(s, cx, cy, small),
{
    assert(small * small <= large * large) by (nonlinear_arith)
        requires
            0 <= small <= large,
    ;
    assert forall|x: int, y: int| #[trigger] disc_point(cx, cy, small, x, y) implies holds(
        s,
        x,
        y,
    ) by {
        assert(disc_point(cx, cy, large, x, y));
    }
}

/// A valid disc stays valid when the set gains pixels.
pub proof fn lemma_disc_valid_superset(s: Seq<Pixel>, t: Seq<Pixel>, cx: int, cy: int, r: int)
    requires
        disc_valid(s, cx, cy, r),
        forall|p: Pixel| s.contains(p) ==> t.contains(p),
    ensures
        disc_valid(t, cx, cy, r),
{
    assert forall|x: int, y: int| #[trigger] disc_point(cx, cy, r, x, y) implies holds(t, x, y) by {
        assert(holds(s, x, y));
    }
}

/// Whether a disc is valid depends on which pixels are members, and not on
/// their order.
pub proof fn lemma_disc_valid_order_free(s: Seq<Pixel>, t: Seq<Pixel>, cx: int, cy: int, r: int)
    requires
        forall|p: Pixel| s.contains(p) <==> t.contains(p),
    ensures
        disc_valid(s, cx, cy, r) == disc_valid(t, cx, cy, r),
{
    if disc_valid(s, cx, cy, r) {
        lemma_disc_valid_superset(s, t, cx, cy, r);
    }
    if disc_valid(t, cx, cy, r) {
        lemma_disc_valid_superset(t, s, cx, cy, r);
    }
}

/// The grown radius depends on which pixels are members, and not on their
/// order.
pub proof fn lemma_grown_radius_order_free(
    s: Seq<Pixel>,
    t: Seq<Pixel>,
    cx: int,
    cy: int,
    min_r: int,
    max_r: int,
)
    requires
        forall|p: Pixel| s.contains(p) <==> t.contains(p),
    ensures
        grown_from(s, cx, cy, min_r, max_r) == grown_from(t, cx, cy, min_r, max_r),
        grown_radius(s, cx, cy, min_r, max_r) == grown_radius(t, cx, cy, min_r, max_r),
    decreases max_r - min_r,
{
    lemma_disc_valid_order_free(s, t, cx, cy, min_r);
    lemma_disc_valid_order_free(s, t, cx, cy, min_r + 1);
    if min_r < max_r && disc_valid(s, cx, cy, min_r + 1) {
        lemma_grown_radius_order_free(s, t, cx, cy, min_r + 1, max_r);
    }
}

/// Growth ends at a valid radius within the limit, and at the largest one:
/// no larger radius up to the limit gives a valid disc.
pub proof fn lemma_grown_from(s: Seq<Pixel>, cx: int, cy: int, r: int, max_r: int)
    requires
        0 <= r <= max_r,
        disc_valid(s, cx, cy, r),
    ensures
        r <= grown_from(s, cx, cy, r, max_r) <= max_r,
        disc_valid(s, cx, cy, grown_from(s, cx, cy, r, max_r)),
        forall|q: int|
            grown_from(s, cx, cy, r, max_r) < q <= max_r ==> !#[trigger] disc_valid(s, cx, cy, q),
    decreases max_r - r,
{
    let g = grown_from(s, cx, cy, r, max_r);
    if r < max_r && disc_valid(s, cx, cy, r + 1) {
        lemma_grown_from(s, cx, cy, r + 1, max_r);
    } else {
        assert forall|q: int| g < q <= max_r implies !#[trigger] disc_valid(s, cx, cy, q) by {
            if disc_valid(s, cx, cy, q) {
                lemma_disc_valid_shrinks(s, cx, cy, r + 1, q);
            }
        }
    }
}

/// The grown radius is the largest radius between `min_r` and `max_r` whose
/// disc is valid, and 1 where there is none.
pub proof fn lemma_grown_radius(s: Seq<Pixel>, cx: int, cy: int, min_r: int, max_r: int)
    requires
        0 <= min_r,
    ensures
        (exists|q: int| min_r <= q <= max_r && disc_valid(s, cx, cy, q)) ==> {
            &&& min_r <= grown_radius(s, cx, cy, min_r, max_r) <= max_r
            &&& disc_valid(s, cx, cy, grown_radius(s, cx, cy, min_r, max_r))
            &&& forall|q: int|
                grown_radius(s, cx, cy, min_r, max_r) < q <= max_r ==> !#[trigger] disc_valid(
                    s,
                    cx,
                    cy,
                    q,
                )
        },
        !(exists|q: int| min_r <= q <= max_r && disc_valid(s, cx, cy, q)) ==> grown_radius(
            s,
            cx,
            cy,
            min_r,
            max_r,
        ) == 1,
{
    if exists|q: int| min_r <= q <= max_r && disc_valid(s, cx, cy, q) {
        let q = choose|q: int| min_r <= q <= max_r && disc_valid(s, cx, cy, q);
        lemma_disc_valid_shrinks(s, cx, cy, min_r, q);
        lemma_grown_from(s, cx, cy, min_r, max_r);
    }
}

/// Tells whether the whole disc of the given radius around `(cx, cy)` lies in
/// the set. Points with a negative component are not asked for; every other
/// point of the disc must be a member.
pub fn check_circle(valid_px: &PixelSet, cx: u32, cy: u32, radius: u32) -> (valid: bool)
    ensures
        valid == disc_valid(valid_px@, cx as int, cy as int, radius as int),
{
    let hi: i64 = radius as i64;
    let lo: i64 = -hi;
    proof {
        assert forall|x: int, y: int| #[trigger]
            disc_point(cx as int, cy as int, radius as int, x, y) implies lo <= x - cx <= hi && lo
            <= y - cy <= hi by {
            lemma_within_bounds(x - cx, y - cy, radius as int);
        }
    }
    let mut dy: i64 = lo;
    while dy <= hi
        invariant
            hi == radius as int,
            lo == -(radius as int),
            lo <= dy <= hi + 1,
            forall|x: int, y: int| #[trigger]
                disc_point(cx as int, cy as int, radius as int, x, y) ==> lo <= x - cx <= hi && lo
                    <= y - cy <= hi,
            forall|x: int, y: int| #[trigger]
                disc_point(cx as int, cy as int, radius as int, x, y) && y - cy < dy ==> holds(
                    valid_px@,
                    x,
                    y,
                ),
        decreases hi + 1 - dy,
    {
        let mut dx: i64 = lo;
        while dx <= hi
            invariant
                hi == radius as int,
                lo == -(radius as int),
                lo <= dy <= hi,
                lo <= dx <= hi + 1,
                forall|x: int, y: int| #[trigger]
                    disc_point(cx as int, cy as int, radius as int, x, y) ==> lo <= x - cx <= hi
                        && lo <= y - cy <= hi,
                forall|x: int, y: int| #[trigger]
                    disc_point(cx as int, cy as int, radius as int, x, y) && (y - cy < dy || (y
                        - cy == dy && x - cx < dx)) ==> holds(valid_px@, x, y),
            decreases hi + 1 - dx,
        {
            let x: i64 = cx as i64 + dx;
            let y: i64 = cy as i64 + dy;
            if offset_within(dx, dy, radius) && x >= 0 && y >= 0 {
                assert(disc_point(cx as int, cy as int, radius as int, x as int, y as int));
                if x > 0xffff_ffff || y > 0xffff_ffff {
                    return false;
                }
                if !valid_px.contains(Pixel { x: x as u32, y: y as u32 }) {
                    return false;
                }
            }
            dx = dx + 1;
        }
        dy = dy + 1;
    }
    true
}

/// Grows the circle around `(cx, cy)`: the radius starts at `min_radius` and
/// goes up by one while the disc stays in the set and the radius stays within
/// `max_radius`. The circle gets the last radius whose disc was in the set,
/// and radius 1 where not even the first one was.
pub fn find_biggest_circle(
    valid_px: &PixelSet,
    cx: u32,
    cy: u32,
    min_radius: u32,
    max_radius: u32,
) -> (circle: Circle)
    ensures
        circle.x == cx,
        circle.y == cy,
        circle.r == grown_radius(
            valid_px@,
            cx as int,
            cy as int,
            min_radius as int,
            max_radius as int,
        ),
        circle.r == 1 || (min_radius <= circle.r <= max_radius && disc_valid(
            valid_px@,
            cx as int,
            cy as int,
            circle.r as int,
        ) && forall|q: int|
            circle.r < q <= max_radius ==> !#[trigger] disc_valid(
                valid_px@,
                cx as int,
                cy as int,
                q,
            )),
{
    if min_radius > max_radius || !check_circle(valid_px, cx, cy, min_radius) {
        return Circle { x: cx, y: cy, r: 1 };
    }
    proof {
        lemma_grown_from(valid_px@, cx as int, cy as int, min_radius as int, max_radius as int);
    }
    let mut r: u32 = min_radius;
    while r < max_radius
        invariant
            min_radius <= r <= max_radius,
            disc_valid(valid_px@, cx as int, cy as int, r as int),
            grown_from(valid_px@, cx as int, cy as int, r as int, max_radius as int) == grown_from(
                valid_px@,
                cx as int,
                cy as int,
                min_radius as int,
                max_radius as int,
            ),
        ensures
            r == grown_from(
                valid_px@,
                cx as int,
                cy as int,
                min_radius as int,
                max_radius as int,
            ),
        decreases max_radius - r,
    {
        if !check_circle(valid_px, cx, cy, r + 1) {
            break;
        }
        r = r + 1;
    }
    Circle { x: cx, y: cy, r }
}

} // verus!
