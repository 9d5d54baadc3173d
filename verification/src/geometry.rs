//! Pixels, circles and the integer geometry of a disc.

use vstd::prelude::*;

verus! {

/// A pixel coordinate: column `x` and row `y`, counted from the top-left corner.
#[derive(Clone, Copy, Debug, PartialEq, Eq, Structural, Ord, Hash)]
pub struct Pixel {
    pub x: u32,
    pub y: u32,
}

/// A circle with its centre on a pixel and a radius in pixel units.
#[derive(Clone, Copy, Debug, PartialEq, Eq, Structural)]
pub struct Circle {
    pub x: u32,
    pub y: u32,
    pub r: u32,
}

/// The offset `(dx, dy)` from a centre lies within Euclidean distance `r`.
pub open spec fn within(dx: int, dy: int, r: int) -> bool {
    dx * dx + dy * dy <= r * r
}

/// The point `(x, y)` has no negative component and belongs to the disc of
/// radius `r` around `(cx, cy)`.
pub open spec fn disc_point(cx: int, cy: int, r: int, x: int, y: int) -> bool {
    x >= 0 && y >= 0 && within(x - cx, y - cy, r)
}

/// The point `(x, y)` can be written as a `Pixel`.
pub open spec fn representable(x: int, y: int) -> bool {
    0 <= x <= u32::MAX && 0 <= y <= u32::MAX
}

/// The pixel `p` belongs to the disc of radius `r` around `(cx, cy)`.
pub open spec fn in_disc(cx: u32, cy: u32, r: u32, p: Pixel) -> bool {
    within(p.x - cx, p.y - cy, r as int)
}

/// What the cell at offset `(dx, dy)` contributes to the enumeration of a disc:
/// its pixel if the cell is in the disc and representable, nothing otherwise.
pub open spec fn disc_cell(cx: int, cy: int, r: int, dx: int, dy: int) -> Seq<Pixel> {
    if within(dx, dy, r) && representable(cx + dx, cy + dy) {
        seq![Pixel { x: (cx + dx) as u32, y: (cy + dy) as u32 }]
    } else {
        Seq::empty()
    }
}

/// The disc's pixels in row `cy + dy` whose column offset is below `dx_end`,
/// from left to right.
pub open spec fn disc_row(cx: int, cy: int, r: int, dy: int, dx_end: int) -> Seq<Pixel>
    decreases dx_end + r,
{
    if dx_end <= -r {
        Seq::empty()
    } else {
        disc_row(cx, cy, r, dy, dx_end - 1) + disc_cell(cx, cy, r, dx_end - 1, dy)
    }
}

/// The disc's pixels in the rows whose offset is below `dy_end`, row by row
/// from the top.
pub open spec fn disc_rows(cx: int, cy: int, r: int, dy_end: int) -> Seq<Pixel>
    decreases dy_end + r,
{
    if dy_end <= -r {
        Seq::empty()
    } else {
        disc_rows(cx, cy, r, dy_end - 1) + disc_row(cx, cy, r, dy_end - 1, r + 1)
    }
}

/// The pixels of the disc of radius `r` around `(cx, cy)` in row-major order.
pub open spec fn disc_pixels(cx: u32, cy: u32, r: u32) -> Seq<Pixel> {
    disc_rows(cx as int, cy as int, r as int, r as int + 1)
}

/// An offset inside a disc is bounded by the radius in each direction.
pub proof fn lemma_within_bounds(dx: int, dy: int, r: int)
    requires
        r >= 0,
        within(dx, dy, r),
    ensures
        -r <= dx <= r,
        -r <= dy <= r,
{
    assert(dx * dx <= r * r && dy * dy <= r * r) by (nonlinear_arith)
        requires
            dx * dx + dy * dy <= r * r,
    ;
    assert(-r <= dx <= r) by (nonlinear_arith)
        requires
            dx * dx <= r * r,
            r >= 0,
    ;
    assert(-r <= dy <= r) by (nonlinear_arith)
        requires
            dy * dy <= r * r,
            r >= 0,
    ;
}

/// A pixel is in a concatenation exactly when it is in one of the two parts.
pub proof fn lemma_concat_contains(a: Seq<Pixel>, b: Seq<Pixel>, p: Pixel)
    ensures
        (a + b).contains(p) <==> a.contains(p) || b.contains(p),
{
    if a.contains(p) {
        let i = choose|i: int| 0 <= i < a.len() && a[i] == p;
        assert((a + b)[i] == p);
    }
    if b.contains(p) {
        let i = choose|i: int| 0 <= i < b.len() && b[i] == p;
        assert((a + b)[a.len() + i] == p);
    }
    if (a + b).contains(p) {
        let i = choose|i: int| 0 <= i < (a + b).len() && (a + b)[i] == p;
        if i < a.len() {
            assert(a[i] == p);
        } else {
            assert(b[i - a.len()] == p);
        }
    }
}

/// Membership in a partial row of the enumeration.
pub proof fn lemma_disc_row_contains(cx: int, cy: int, r: int, dy: int, dx_end: int, p: Pixel)
    requires
        r >= 0,
    ensures
        disc_row(cx, cy, r, dy, dx_end).contains(p) <==> (p.y == cy + dy && -r <= p.x - cx < dx_end
            && within(p.x - cx, dy, r)),
    decreases dx_end + r,
{
    if dx_end > -r {
        lemma_disc_row_contains(cx, cy, r, dy, dx_end - 1, p);
        let cell = disc_cell(cx, cy, r, dx_end - 1, dy);
        lemma_concat_contains(disc_row(cx, cy, r, dy, dx_end - 1), cell, p);
        if cell.contains(p) {
            assert(cell.len() == 1 && cell[0] == p);
        }
        if p.y == cy + dy && p.x - cx == dx_end - 1 && within(p.x - cx, dy, r) {
            assert(cell[0] == p);
        }
    }
}

/// Membership in the first rows of the enumeration.
pub proof fn lemma_disc_rows_contains(cx: int, cy: int, r: int, dy_end: int, p: Pixel)
    requires
        r >= 0,
    ensures
        disc_rows(cx, cy, r, dy_end).contains(p) <==> (-r <= p.y - cy < dy_end && within(
            p.x - cx,
            p.y - cy,
            r,
        )),
    decreases dy_end + r,
{
    if dy_end > -r {
        lemma_disc_rows_contains(cx, cy, r, dy_end - 1, p);
        lemma_disc_row_contains(cx, cy, r, dy_end - 1, r + 1, p);
        lemma_concat_contains(
            disc_rows(cx, cy, r, dy_end - 1),
            disc_row(cx, cy, r, dy_end - 1, r + 1),
            p,
        );
        if within(p.x - cx, p.y - cy, r) {
            lemma_within_bounds(p.x - cx, p.y - cy, r);
        }
    }
}

/// The enumeration of a disc holds exactly the pixels within the radius.
pub proof fn lemma_disc_pixels_contains(cx: u32, cy: u32, r: u32, p: Pixel)
    ensures
        disc_pixels(cx, cy, r).contains(p) <==> in_disc(cx, cy, r, p),
{
    lemma_disc_rows_contains(cx as int, cy as int, r as int, r as int + 1, p);
    if in_disc(cx, cy, r, p) {
        lemma_within_bounds(p.x - cx, p.y - cy, r as int);
    }
}

/// The pixel `a` is met before `b` in a walk row by row from the top, and
/// from left to right within a row.
pub open spec fn row_major_before(a: Pixel, b: Pixel) -> bool {
    a.y < b.y || (a.y == b.y && a.x < b.x)
}

/// Each pixel of `s` is met before the ones that follow it.
pub open spec fn row_major_sorted(s: Seq<Pixel>) -> bool {
    forall|i: int, j: int| 0 <= i < j < s.len() ==> row_major_before(s[i], s[j])
}

/// Two sorted parts, the first wholly before the second, make a sorted whole.
pub proof fn lemma_sorted_concat(a: Seq<Pixel>, b: Seq<Pixel>)
    requires
        row_major_sorted(a),
        row_major_sorted(b),
        forall|i: int, j: int| 0 <= i < a.len() && 0 <= j < b.len() ==> row_major_before(a[i], b[j]),
    ensures
        row_major_sorted(a + b),
{
    let c = a + b;
    assert forall|i: int, j: int| 0 <= i < j < c.len() implies row_major_before(c[i], c[j]) by {
        if j < a.len() {
            assert(c[i] == a[i] && c[j] == a[j]);
        } else if i < a.len() {
            assert(c[i] == a[i] && c[j] == b[j - a.len()]);
        } else {
            assert(c[i] == b[i - a.len()] && c[j] == b[j - a.len()]);
        }
    }
}

/// A partial row of the enumeration runs from left to right.
pub proof fn lemma_disc_row_sorted(cx: int, cy: int, r: int, dy: int, dx_end: int)
    requires
        r >= 0,
    ensures
        row_major_sorted(disc_row(cx, cy, r, dy, dx_end)),
    decreases dx_end + r,
{
    if dx_end > -r {
        let head = disc_row(cx, cy, r, dy, dx_end - 1);
        let cell = disc_cell(cx, cy, r, dx_end - 1, dy);
        lemma_disc_row_sorted(cx, cy, r, dy, dx_end - 1);
        assert forall|i: int, j: int| 0 <= i < head.len() && 0 <= j < cell.len() implies row_major_before(
            head[i],
            cell[j],
        ) by {
            assert(head.contains(head[i]));
            lemma_disc_row_contains(cx, cy, r, dy, dx_end - 1, head[i]);
        }
        lemma_sorted_concat(head, cell);
    }
}

/// The first rows of the enumeration run row by row from the top.
pub proof fn lemma_disc_rows_sorted(cx: int, cy: int, r: int, dy_end: int)
    requires
        r >= 0,
    ensures
        row_major_sorted(disc_rows(cx, cy, r, dy_end)),
    decreases dy_end + r,
{
    if dy_end > -r {
        let head = disc_rows(cx, cy, r, dy_end - 1);
        let row = disc_row(cx, cy, r, dy_end - 1, r + 1);
        lemma_disc_rows_sorted(cx, cy, r, dy_end - 1);
        lemma_disc_row_sorted(cx, cy, r, dy_end - 1, r + 1);
        assert forall|i: int, j: int| 0 <= i < head.len() && 0 <= j < row.len() implies row_major_before(
            head[i],
            row[j],
        ) by {
            assert(head.contains(head[i]));
            assert(row.contains(row[j]));
            lemma_disc_rows_contains(cx, cy, r, dy_end - 1, head[i]);
            lemma_disc_row_contains(cx, cy, r, dy_end - 1, r + 1, row[j]);
        }
        lemma_sorted_concat(head, row);
    }
}

/// The enumeration of a disc is in row-major order, so no pixel occurs twice.
pub proof fn lemma_disc_pixels_sorted(cx: u32, cy: u32, r: u32)
    ensures
        row_major_sorted(disc_pixels(cx, cy, r)),
        disc_pixels(cx, cy, r).no_duplicates(),
{
    lemma_disc_rows_sorted(cx as int, cy as int, r as int, r as int + 1);
    let s = disc_pixels(cx, cy, r);
    assert forall|i: int, j: int| 0 <= i < s.len() && 0 <= j < s.len() && i != j implies s[i]
        != s[j] by {
        if i < j {
            assert(row_major_before(s[i], s[j]));
        } else {
            assert(row_major_before(s[j], s[i]));
        }
    }
}

/// A disc of radius zero is its centre.
pub proof fn lemma_disc_pixels_zero(cx: u32, cy: u32)
    ensures
        disc_pixels(cx, cy, 0) == seq![Pixel { x: cx, y: cy }],
{
    let x = cx as int;
    let y = cy as int;
    reveal_with_fuel(disc_rows, 3);
    reveal_with_fuel(disc_row, 3);
    assert(within(0, 0, 0));
    assert(disc_pixels(cx, cy, 0) =~= seq![Pixel { x: cx, y: cy }]);
}

/// Whether the offset `(dx, dy)` lies within distance `r`.
pub(crate) fn offset_within(dx: i64, dy: i64, r: u32) -> (b: bool)
    requires
        -(r as int) <= dx <= r as int,
        -(r as int) <= dy <= r as int,
    ensures
        b == within(dx as int, dy as int, r as int),
{
    let wx: i128 = dx as i128;
    let wy: i128 = dy as i128;
    let wr: i128 = r as i128;
    assert(0 <= wx * wx <= 0x1_0000_0000_0000_0000 && 0 <= wy * wy <= 0x1_0000_0000_0000_0000 && 0
        <= wr * wr <= 0x1_0000_0000_0000_0000) by (nonlinear_arith)
        requires
            -0x1_0000_0000 <= wx <= 0x1_0000_0000,
            -0x1_0000_0000 <= wy <= 0x1_0000_0000,
            0 <= wr <= 0x1_0000_0000,
    ;
    wx * wx + wy * wy <= wr * wr
}

/// Enumerates the pixels of the disc of radius `r` around `(cx, cy)`, row by
/// row from the top and from left to right within a row. Points with a
/// negative component are left out, as are points beyond the range of the
/// coordinate type.
pub fn pixels_in_circle(cx: u32, cy: u32, r: u32) -> (out: Vec<Pixel>)
    ensures
        out@ == disc_pixels(cx, cy, r),
        forall|p: Pixel| #[trigger] out@.contains(p) <==> in_disc(cx, cy, r, p),
        row_major_sorted(out@),
        out@.no_duplicates(),
        r == 0 ==> out@ == seq![Pixel { x: cx, y: cy }],
{
    let mut out: Vec<Pixel> = Vec::new();
    let hi: i64 = r as i64;
    let lo: i64 = -hi;
    let mut dy: i64 = lo;
    while dy <= hi
        invariant
            hi == r as int,
            lo == -(r as int),
            lo <= dy <= hi + 1,
            out@ == disc_rows(cx as int, cy as int, r as int, dy as int),
        decreases hi + 1 - dy,
    {
        let mut dx: i64 = lo;
        assert(out@ + disc_row(cx as int, cy as int, r as int, dy as int, dx as int) =~= out@);
        while dx <= hi
            invariant
                hi == r as int,
                lo == -(r as int),
                lo <= dy <= hi,
                lo <= dx <= hi + 1,
                out@ == disc_rows(cx as int, cy as int, r as int, dy as int) + disc_row(
                    cx as int,
                    cy as int,
                    r as int,
                    dy as int,
                    dx as int,
                ),
            decreases hi + 1 - dx,
        {
            let ghost before = out@;
            let x: i64 = cx as i64 + dx;
            let y: i64 = cy as i64 + dy;
            if offset_within(dx, dy, r) && 0 <= x && x <= 0xffff_ffff && 0 <= y && y
                <= 0xffff_ffff {
                out.push(Pixel { x: x as u32, y: y as u32 });
            }
            dx = dx + 1;
            assert(out@ =~= disc_rows(cx as int, cy as int, r as int, dy as int) + disc_row(
                cx as int,
                cy as int,
                r as int,
                dy as int,
                dx as int,
            )) by {
                assert(out@ =~= before + disc_cell(
                    cx as int,
                    cy as int,
                    r as int,
                    dx as int - 1,
                    dy as int,
                ));
            }
        }
        dy = dy + 1;
    }
    proof {
        assert forall|p: Pixel| out@.contains(p) <==> in_disc(cx, cy, r, p) by {
            lemma_disc_pixels_contains(cx, cy, r, p);
        }
        lemma_disc_pixels_sorted(cx, cy, r);
        if r == 0 {
            lemma_disc_pixels_zero(cx, cy);
        }
    }
    out
}

} // verus!
