//! Choosing the seed of the next circle.

use crate::geometry::{row_major_before, row_major_sorted, Pixel};
use crate::pixel_set::PixelSet;
use vstd::prelude::*;

verus! {

/// How the packing loop chooses the centre of the next circle.
#[derive(Clone, Copy, Debug, PartialEq, Eq, Structural)]
pub enum SeedPolicy {
    /// The first member of the set's order.
    First,
    /// The member that is farthest from the dark pixels of an image of the
    /// given size, which are the pixels of the image that are no members.
    /// Where the image has no dark pixel, the member that is farthest from
    /// the image's border. Among several members equally far, the one that
    /// is met first row by row. The order of the set plays no part.
    Farthest { width: u32, height: u32 },
}

/// The squared distance between two pixels.
pub open spec fn dist2(p: Pixel, q: Pixel) -> int {
    (p.x - q.x) * (p.x - q.x) + (p.y - q.y) * (p.y - q.y)
}

/// The pixel `q` lies in the image and is not among the members `m`.
pub open spec fn is_dark(m: Set<Pixel>, width: int, height: int, q: Pixel) -> bool {
    q.x < width && q.y < height && !m.contains(q)
}

/// The image has a dark pixel.
pub open spec fn has_dark(m: Set<Pixel>, width: int, height: int) -> bool {
    exists|q: Pixel| #[trigger] is_dark(m, width, height, q)
}

/// The dark pixel nearest to `p` is at squared distance `d`.
pub open spec fn nearest_dark_at(m: Set<Pixel>, width: int, height: int, p: Pixel, d: int) -> bool {
    &&& forall|q: Pixel| #[trigger] is_dark(m, width, height, q) ==> dist2(p, q) >= d
    &&& exists|q: Pixel| #[trigger] is_dark(m, width, height, q) && dist2(p, q) == d
}

/// The distance from `p` to the nearest point beyond the border of the image;
/// 0 where `p` lies beyond the border itself.
pub open spec fn border_gap(width: int, height: int, p: Pixel) -> int {
    let horizontal = if p.x + 1 <= width - p.x {
        p.x + 1
    } else {
        width - p.x
    };
    let vertical = if p.y + 1 <= height - p.y {
        p.y + 1
    } else {
        height - p.y
    };
    if p.x >= width || p.y >= height {
        0
    } else if horizontal <= vertical {
        horizontal
    } else {
        vertical
    }
}

/// How far `p` is from the background, as a squared distance: the distance
/// to the nearest dark pixel of the image, and the distance to the image's
/// border where the image has no dark pixel.
pub open spec fn clearance(m: Set<Pixel>, width: int, height: int, p: Pixel) -> int {
    if has_dark(m, width, height) {
        choose|d: int| nearest_dark_at(m, width, height, p, d)
    } else {
        border_gap(width, height, p) * border_gap(width, height, p)
    }
}

/// The pixel `a` is the better seed of the two: it has the larger clearance,
/// or the same clearance and is met before `b` row by row.
pub open spec fn better_seed(m: Set<Pixel>, width: int, height: int, a: Pixel, b: Pixel) -> bool {
    clearance(m, width, height, a) > clearance(m, width, height, b) || (clearance(
        m,
        width,
        height,
        a,
    ) == clearance(m, width, height, b) && row_major_before(a, b))
}

/// The pixel `p` is the member that is the better seed than every other
/// member.
pub open spec fn is_farthest(m: Set<Pixel>, width: int, height: int, p: Pixel) -> bool {
    &&& m.contains(p)
    &&& forall|q: Pixel| #[trigger] m.contains(q) && q != p ==> better_seed(m, width, height, p, q)
}

/// The member of `m` that is the better seed than every other member.
pub open spec fn farthest_seed(m: Set<Pixel>, width: int, height: int) -> Pixel {
    choose|p: Pixel| is_farthest(m, width, height, p)
}

/// Position `k` of `s` holds the best seed among the first `n` pixels of `s`.
pub open spec fn farthest_among(
    s: Seq<Pixel>,
    m: Set<Pixel>,
    width: int,
    height: int,
    n: int,
    k: int,
) -> bool {
    &&& 0 <= k < n <= s.len()
    &&& forall|j: int|
        0 <= j < n && (#[trigger] s[j]) != s[k] ==> better_seed(m, width, height, s[k], s[j])
}

/// The seed that the policy chooses in the set `s`, which is not empty.
pub open spec fn seed_of(s: Seq<Pixel>, policy: SeedPolicy) -> Pixel {
    match policy {
        SeedPolicy::First => s[0],
        SeedPolicy::Farthest { width, height } => farthest_seed(
            s.to_set(),
            width as int,
            height as int,
        ),
    }
}

/// The nearest dark pixel has one distance only.
pub proof fn lemma_clearance(m: Set<Pixel>, width: int, height: int, p: Pixel, d: int)
    requires
        nearest_dark_at(m, width, height, p, d),
    ensures
        has_dark(m, width, height),
        clearance(m, width, height, p) == d,
{
    let c = choose|c: int| nearest_dark_at(m, width, height, p, c);
    let qd = choose|q: Pixel| #[trigger] is_dark(m, width, height, q) && dist2(p, q) == d;
    let qc = choose|q: Pixel| #[trigger] is_dark(m, width, height, q) && dist2(p, q) == c;
    assert(dist2(p, qd) >= c);
    assert(dist2(p, qc) >= d);
}

/// A squared distance is not negative.
pub proof fn lemma_dist2_not_negative(p: Pixel, q: Pixel)
    ensures
        dist2(p, q) >= 0,
{
    let dx = p.x - q.x;
    let dy = p.y - q.y;
    assert(dx * dx + dy * dy >= 0) by (nonlinear_arith);
}

/// Where `q` is a dark pixel, some dark pixel is nearest to `p`.
pub proof fn lemma_nearest_dark_exists(m: Set<Pixel>, width: int, height: int, p: Pixel, q: Pixel)
    requires
        is_dark(m, width, height, q),
    ensures
        exists|d: int| nearest_dark_at(m, width, height, p, d),
    decreases dist2(p, q),
{
    let reach = dist2(p, q);
    if forall|t: Pixel| #[trigger] is_dark(m, width, height, t) ==> dist2(p, t) >= reach {
        assert(nearest_dark_at(m, width, height, p, reach));
    } else {
        let t = choose|t: Pixel| #[trigger] is_dark(m, width, height, t) && dist2(p, t) < reach;
        lemma_dist2_not_negative(p, t);
        lemma_nearest_dark_exists(m, width, height, p, t);
    }
}

/// Where the image has a dark pixel, the clearance of `p` is the distance to
/// a dark pixel, and no dark pixel is nearer.
pub proof fn lemma_clearance_attained(m: Set<Pixel>, width: int, height: int, p: Pixel)
    requires
        has_dark(m, width, height),
    ensures
        nearest_dark_at(m, width, height, p, clearance(m, width, height, p)),
{
    let q = choose|q: Pixel| #[trigger] is_dark(m, width, height, q);
    lemma_nearest_dark_exists(m, width, height, p, q);
}

/// A member that is at least `d` away from every dark pixel is the farthest
/// member, provided that every other member has a dark pixel nearer than `d`,
/// or one at the distance `d` while it is met later row by row.
pub proof fn lemma_farthest_by_bounds(m: Set<Pixel>, width: int, height: int, p: Pixel, d: int)
    requires
        m.contains(p),
        forall|t: Pixel| #[trigger] is_dark(m, width, height, t) ==> dist2(p, t) >= d,
        forall|q: Pixel| #[trigger]
            m.contains(q) && q != p ==> exists|t: Pixel| #[trigger]
                is_dark(m, width, height, t) && (dist2(q, t) < d || (dist2(q, t) == d
                    && row_major_before(p, q))),
    ensures
        is_farthest(m, width, height, p),
        farthest_seed(m, width, height) == p,
{
    assert forall|q: Pixel| #[trigger] m.contains(q) && q != p implies better_seed(
        m,
        width,
        height,
        p,
        q,
    ) by {
        let t = choose|t: Pixel| #[trigger]
            is_dark(m, width, height, t) && (dist2(q, t) < d || (dist2(q, t) == d
                && row_major_before(p, q)));
        lemma_clearance_attained(m, width, height, p);
        lemma_clearance_attained(m, width, height, q);
        let near = choose|u: Pixel| #[trigger]
            is_dark(m, width, height, u) && dist2(p, u) == clearance(m, width, height, p);
        assert(dist2(p, near) >= d);
        assert(dist2(q, t) >= clearance(m, width, height, q));
    }
    lemma_farthest_seed(m, width, height, p);
}

/// No member is farther from the background than the farthest member, and
/// there is one farthest member only.
pub proof fn lemma_farthest_seed(m: Set<Pixel>, width: int, height: int, p: Pixel)
    requires
        is_farthest(m, width, height, p),
    ensures
        farthest_seed(m, width, height) == p,
        forall|q: Pixel| #[trigger]
            m.contains(q) ==> clearance(m, width, height, q) <= clearance(m, width, height, p),
{
    let c = farthest_seed(m, width, height);
    if c != p {
        assert(m.contains(c));
        assert(better_seed(m, width, height, p, c));
        assert(better_seed(m, width, height, c, p));
    }
}

/// The best seed among all pixels of an order is the farthest member of its
/// set of members.
pub proof fn lemma_farthest_among(s: Seq<Pixel>, width: int, height: int, k: int)
    requires
        farthest_among(s, s.to_set(), width, height, s.len() as int, k),
    ensures
        is_farthest(s.to_set(), width, height, s[k]),
        farthest_seed(s.to_set(), width, height) == s[k],
{
    let m = s.to_set();
    assert(s.contains(s[k]));
    assert forall|q: Pixel| #[trigger] m.contains(q) && q != s[k] implies better_seed(
        m,
        width,
        height,
        s[k],
        q,
    ) by {
        assert(s.contains(q));
        let j = choose|j: int| 0 <= j < s.len() && s[j] == q;
        assert(s[j] != s[k]);
    }
    lemma_farthest_seed(m, width, height, s[k]);
}

/// Among the first `n` pixels of an order there is a best seed.
pub proof fn lemma_farthest_among_exists(
    s: Seq<Pixel>,
    m: Set<Pixel>,
    width: int,
    height: int,
    n: int,
)
    requires
        1 <= n <= s.len(),
    ensures
        exists|k: int| farthest_among(s, m, width, height, n, k),
    decreases n,
{
    if n == 1 {
        assert(farthest_among(s, m, width, height, n, 0));
    } else {
        let before = n - 1;
        lemma_farthest_among_exists(s, m, width, height, before);
        let k = choose|k: int| farthest_among(s, m, width, height, before, k);
        if s[before] != s[k] && better_seed(m, width, height, s[before], s[k]) {
            assert(farthest_among(s, m, width, height, n, before));
        } else {
            assert(farthest_among(s, m, width, height, n, k));
        }
    }
}

/// In a set that is not empty the seed of either policy is a member.
pub proof fn lemma_seed_is_member(s: Seq<Pixel>, policy: SeedPolicy)
    requires
        s.len() > 0,
    ensures
        s.contains(seed_of(s, policy)),
{
    match policy {
        SeedPolicy::First => {
            assert(s[0] == seed_of(s, policy));
        },
        SeedPolicy::Farthest { width, height } => {
            let n = s.len() as int;
            lemma_farthest_among_exists(s, s.to_set(), width as int, height as int, n);
            let k = choose|k: int|
                farthest_among(s, s.to_set(), width as int, height as int, n, k);
            lemma_farthest_among(s, width as int, height as int, k);
            assert(s[k] == seed_of(s, policy));
        },
    }
}

/// The farthest member depends on which pixels are members, and not on the
/// order in which the set holds them.
pub proof fn lemma_farthest_seed_order_free(a: Seq<Pixel>, b: Seq<Pixel>, width: u32, height: u32)
    requires
        forall|p: Pixel| a.contains(p) <==> b.contains(p),
    ensures
        seed_of(a, SeedPolicy::Farthest { width, height }) == seed_of(
            b,
            SeedPolicy::Farthest { width, height },
        ),
{
    assert(a.to_set() =~= b.to_set());
}

/// The squared distance between `p` and `q`.
pub fn distance_squared(p: Pixel, q: Pixel) -> (d: u128)
    ensures
        d == dist2(p, q),
{
    let dx: i128 = p.x as i128 - q.x as i128;
    let dy: i128 = p.y as i128 - q.y as i128;
    assert(0 <= dx * dx <= 0x1_0000_0000_0000_0000 && 0 <= dy * dy <= 0x1_0000_0000_0000_0000)
        by (nonlinear_arith)
        requires
            -0x1_0000_0000 <= dx <= 0x1_0000_0000,
            -0x1_0000_0000 <= dy <= 0x1_0000_0000,
    ;
    (dx * dx + dy * dy) as u128
}

/// Lists the dark pixels of an image of `width` by `height` pixels: the
/// pixels of the image that are not members of the set, row by row from the
/// top and from left to right within a row.
pub fn dark_pixels(mask: &PixelSet, width: u32, height: u32) -> (out: Vec<Pixel>)
    ensures
        forall|q: Pixel|
            #[trigger] out@.contains(q) <==> is_dark(mask@.to_set(), width as int, height as int, q),
        row_major_sorted(out@),
{
    let mut out: Vec<Pixel> = Vec::new();
    let mut y: u32 = 0;
    while y < height
        invariant
            y <= height,
            forall|q: Pixel|
                out@.contains(q) <==> is_dark(mask@.to_set(), width as int, height as int, q) && q.y < y,
            row_major_sorted(out@),
        decreases height - y,
    {
        let mut x: u32 = 0;
        while x < width
            invariant
                y < height,
                x <= width,
                forall|q: Pixel|
                    out@.contains(q) <==> is_dark(mask@.to_set(), width as int, height as int, q) && (q.y < y
                        || (q.y == y && q.x < x)),
                row_major_sorted(out@),
            decreases width - x,
        {
            let ghost before = out@;
            let p = Pixel { x, y };
            let dark = !mask.contains(p);
            if dark {
                out.push(p);
                assert forall|i: int, j: int| 0 <= i < j < out@.len() implies row_major_before(
                    out@[i],
                    out@[j],
                ) by {
                    assert(before.contains(before[i]));
                    if j < before.len() {
                        assert(row_major_before(before[i], before[j]));
                    }
                }
            }
            x = x + 1;
            assert forall|q: Pixel|
                out@.contains(q) <==> is_dark(mask@.to_set(), width as int, height as int, q) && (q.y < y
                    || (q.y == y && q.x < x)) by {
                if q.y == y && q.x == x - 1 {
                    assert(q == p);
                }
                if dark {
                    assert(out@ == before.push(p));
                    if before.contains(q) {
                        let i = choose|i: int| 0 <= i < before.len() && before[i] == q;
                        assert(out@[i] == q);
                    }
                    assert(out@[before.len() as int] == p);
                    if out@.contains(q) {
                        let i = choose|i: int| 0 <= i < out@.len() && out@[i] == q;
                        if i < before.len() {
                            assert(before[i] == q);
                        }
                    }
                }
                assert(before.contains(q) <==> is_dark(mask@.to_set(), width as int, height as int, q) && (
                q.y < y || (q.y == y && q.x < x - 1)));
            }
        }
        y = y + 1;
    }
    out
}

/// The smallest squared distance from `p` to a pixel of `pixels`, or nothing
/// where there is no pixel.
pub fn nearest(pixels: &Vec<Pixel>, p: Pixel) -> (r: Option<u128>)
    ensures
        r is None <==> pixels@.len() == 0,
        r matches Some(d) ==> {
            &&& forall|i: int| 0 <= i < pixels@.len() ==> dist2(p, #[trigger] pixels@[i]) >= d
            &&& exists|i: int| 0 <= i < pixels@.len() && dist2(p, #[trigger] pixels@[i]) == d
        },
{
    if pixels.len() == 0 {
        return None;
    }
    let mut best: u128 = distance_squared(p, pixels[0]);
    let ghost mut at: int = 0;
    let mut i: usize = 1;
    while i < pixels.len()
        invariant
            1 <= i <= pixels.len(),
            0 <= at < i,
            best == dist2(p, pixels@[at]),
            forall|j: int| 0 <= j < i ==> dist2(p, #[trigger] pixels@[j]) >= best,
        decreases pixels.len() - i,
    {
        let d = distance_squared(p, pixels[i]);
        if d < best {
            best = d;
            proof {
                at = i as int;
            }
        }
        i = i + 1;
    }
    assert(dist2(p, pixels@[at]) == best);
    Some(best)
}

/// The distance from `p` to the nearest point beyond the border of an image
/// of `width` by `height` pixels; 0 where `p` lies beyond the border itself.
pub fn border_distance(width: u32, height: u32, p: Pixel) -> (g: u64)
    ensures
        g == border_gap(width as int, height as int, p),
        g <= 0x1_0000_0000,
{
    if p.x >= width || p.y >= height {
        return 0;
    }
    let left: u64 = p.x as u64 + 1;
    let right: u64 = (width - p.x) as u64;
    let top: u64 = p.y as u64 + 1;
    let bottom: u64 = (height - p.y) as u64;
    let horizontal = if left <= right {
        left
    } else {
        right
    };
    let vertical = if top <= bottom {
        top
    } else {
        bottom
    };
    if horizontal <= vertical {
        horizontal
    } else {
        vertical
    }
}

/// The clearance of `p`, given the list of the image's dark pixels.
fn clearance_among(mask: &PixelSet, width: u32, height: u32, dark: &Vec<Pixel>, p: Pixel) -> (d:
    u128)
    requires
        forall|q: Pixel|
            dark@.contains(q) <==> is_dark(mask@.to_set(), width as int, height as int, q),
    ensures
        d == clearance(mask@.to_set(), width as int, height as int, p),
{
    let ghost m = mask@.to_set();
    let ghost w = width as int;
    let ghost h = height as int;
    match nearest(dark, p) {
        Some(d) => {
            proof {
                let i = choose|i: int| 0 <= i < dark@.len() && dist2(p, #[trigger] dark@[i]) == d;
                assert(dark@.contains(dark@[i]));
                assert(is_dark(m, w, h, dark@[i]));
                assert forall|q: Pixel| #[trigger] is_dark(m, w, h, q) implies dist2(p, q)
                    >= d by {
                    assert(dark@.contains(q));
                    let j = choose|j: int| 0 <= j < dark@.len() && dark@[j] == q;
                    assert(dist2(p, dark@[j]) >= d);
                }
                lemma_clearance(m, w, h, p, d as int);
            }
            d
        },
        None => {
            proof {
                assert forall|q: Pixel| !#[trigger] is_dark(m, w, h, q) by {
                    if is_dark(m, w, h, q) {
                        assert(dark@.contains(q));
                    }
                }
            }
            let gap = border_distance(width, height, p);
            assert(gap * gap <= 0x1_0000_0000_0000_0000) by (nonlinear_arith)
                requires
                    0 <= gap <= 0x1_0000_0000,
            ;
            (gap as u128) * (gap as u128)
        },
    }
}

/// How far `p` is from the background of an image of `width` by `height`
/// pixels, as a squared distance: the distance to the nearest pixel of the
/// image that is no member of the set, and the distance to the image's border
/// where every pixel of the image is a member.
pub fn clearance_of(mask: &PixelSet, width: u32, height: u32, p: Pixel) -> (d: u128)
    ensures
        d == clearance(mask@.to_set(), width as int, height as int, p),
{
    let dark = dark_pixels(mask, width, height);
    clearance_among(mask, width, height, &dark, p)
}

/// Finds the member of the set that is farthest from the background of an
/// image of `width` by `height` pixels: from the nearest pixel of the image
/// that is no member, or from the image's border where every pixel of the
/// image is a member. Among several members equally far, the one that is met
/// first row by row is chosen, whatever the order of the set. An empty set
/// has no such member.
pub fn farthest_interior_point(mask: &PixelSet, width: u32, height: u32) -> (r: Option<Pixel>)
    ensures
        r == if mask@.len() == 0 {
            None
        } else {
            Some(farthest_seed(mask@.to_set(), width as int, height as int))
        },
        r matches Some(p) ==> {
            &&& mask@.contains(p)
            &&& is_farthest(mask@.to_set(), width as int, height as int, p)
            &&& forall|q: Pixel| #[trigger]
                mask@.contains(q) ==> clearance(mask@.to_set(), width as int, height as int, q)
                    <= clearance(mask@.to_set(), width as int, height as int, p)
        },
{
    let members = mask.pixels();
    if members.len() == 0 {
        return None;
    }
    let dark = dark_pixels(mask, width, height);
    let mut best: usize = 0;
    let mut best_clearance = clearance_among(mask, width, height, &dark, members[0]);
    let mut i: usize = 1;
    while i < members.len()
        invariant
            members@ == mask@,
            1 <= i <= members.len(),
            forall|q: Pixel|
                dark@.contains(q) <==> is_dark(mask@.to_set(), width as int, height as int, q),
            best_clearance == clearance(
                mask@.to_set(),
                width as int,
                height as int,
                mask@[best as int],
            ),
            farthest_among(
                mask@,
                mask@.to_set(),
                width as int,
                height as int,
                i as int,
                best as int,
            ),
        decreases members.len() - i,
    {
        let p = members[i];
        let b = members[best];
        let c = clearance_among(mask, width, height, &dark, p);
        if c > best_clearance || (c == best_clearance && (p.y < b.y || (p.y == b.y && p.x < b.x))) {
            best = i;
            best_clearance = c;
        }
        i = i + 1;
    }
    proof {
        lemma_farthest_among(mask@, width as int, height as int, best as int);
        assert forall|q: Pixel| #[trigger] mask@.contains(q) implies clearance(
            mask@.to_set(),
            width as int,
            height as int,
            q,
        ) <= best_clearance by {
            assert(mask@.to_set().contains(q));
        }
    }
    Some(members[best])
}

/// Chooses the seed of the next circle, or nothing where the set is empty.
pub fn select_seed(mask: &PixelSet, policy: &SeedPolicy) -> (r: Option<Pixel>)
    ensures
        r == if mask@.len() == 0 {
            None
        } else {
            Some(seed_of(mask@, *policy))
        },
        mask@.len() > 0 ==> mask@.contains(seed_of(mask@, *policy)),
{
    match policy {
        SeedPolicy::First => mask.first(),
        SeedPolicy::Farthest { width, height } => farthest_interior_point(mask, *width, *height),
    }
}

} // verus!
