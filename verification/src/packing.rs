//! The packing loop: one step for a given seed, the whole loop under a seed
//! policy, and the variant in two passes.

use crate::geometry::{
    disc_pixels, disc_point, in_disc, lemma_disc_pixels_contains, pixels_in_circle, Circle, Pixel,
};
use crate::grow::{
    disc_valid, find_biggest_circle, grown_radius, holds, lemma_disc_valid_superset,
    lemma_grown_radius, lemma_grown_radius_order_free,
};
use crate::pixel_set::{lemma_removed_all, lemma_swap_removed, removed_all, swap_removed, PixelSet};
use crate::seed::{
    lemma_farthest_seed_order_free, lemma_seed_is_member, seed_of, select_seed, SeedPolicy,
};
use vstd::prelude::*;

verus! {

/// The parameters of a packing run.
#[derive(Clone, Copy, Debug, PartialEq, Eq, Structural)]
pub struct PackConfig {
    /// The first radius that growth tries.
    pub grow_from: u32,
    /// The largest radius that growth tries.
    pub max_radius: u32,
    /// A grown circle is accepted from this radius on.
    pub min_radius: u32,
    /// An accepted circle takes away the disc whose radius is smaller than
    /// its own by this margin, so that later circles may overlap it a little.
    pub overlap_margin: u32,
}

/// The largest radius that the standard configuration tries.
pub const MAX_RADIUS: u32 = 25;

impl Default for PackConfig {
    /// The standard configuration: growth tries the radii from 3 to
    /// `MAX_RADIUS`, circles are accepted from radius 3 on, and an accepted
    /// circle takes its whole disc away.
    fn default() -> (cfg: Self)
        ensures
            cfg == (PackConfig {
                grow_from: 3,
                max_radius: MAX_RADIUS,
                min_radius: 3,
                overlap_margin: 0,
            }),
    {
        PackConfig { grow_from: 3, max_radius: MAX_RADIUS, min_radius: 3, overlap_margin: 0 }
    }
}

/// The circle grown around `seed` in the set `s`.
pub open spec fn step_circle(s: Seq<Pixel>, seed: Pixel, cfg: PackConfig) -> Circle {
    Circle {
        x: seed.x,
        y: seed.y,
        r: grown_radius(
            s,
            seed.x as int,
            seed.y as int,
            cfg.grow_from as int,
            cfg.max_radius as int,
        ) as u32,
    }
}

/// The circle grown around `seed` is large enough to be accepted.
pub open spec fn step_accepts(s: Seq<Pixel>, seed: Pixel, cfg: PackConfig) -> bool {
    step_circle(s, seed, cfg).r >= cfg.min_radius
}

/// The radius of the disc that an accepted circle of radius `r` takes away.
pub open spec fn removal_radius(r: u32, margin: u32) -> u32 {
    if r >= margin {
        (r - margin) as u32
    } else {
        0
    }
}

/// The pixels that a step with `seed` takes away: the reduced disc of an
/// accepted circle, or the seed alone after a rejection.
pub open spec fn step_takes(s: Seq<Pixel>, seed: Pixel, cfg: PackConfig, p: Pixel) -> bool {
    if step_accepts(s, seed, cfg) {
        in_disc(seed.x, seed.y, removal_radius(step_circle(s, seed, cfg).r, cfg.overlap_margin), p)
    } else {
        p == seed
    }
}

/// The set after a step with `seed`.
pub open spec fn step_remaining(s: Seq<Pixel>, seed: Pixel, cfg: PackConfig) -> Seq<Pixel> {
    if step_accepts(s, seed, cfg) {
        removed_all(
            s,
            disc_pixels(
                seed.x,
                seed.y,
                removal_radius(step_circle(s, seed, cfg).r, cfg.overlap_margin),
            ),
        )
    } else {
        swap_removed(s, seed)
    }
}

/// The circles that the loop accepts when the policy chooses each seed in
/// what is left of `s`, in the order of acceptance.
pub open spec fn pack_circles(s: Seq<Pixel>, policy: SeedPolicy, cfg: PackConfig) -> Seq<Circle>
    decreases s.len(),
{
    if s.len() == 0 {
        Seq::empty()
    } else {
        let seed = seed_of(s, policy);
        let rest = step_remaining(s, seed, cfg);
        let found = if step_accepts(s, seed, cfg) {
            seq![step_circle(s, seed, cfg)]
        } else {
            Seq::empty()
        };
        if rest.len() < s.len() {
            found + pack_circles(rest, policy, cfg)
        } else {
            found
        }
    }
}

/// The number of steps that the loop makes on the set `s` until the set is
/// empty.
pub open spec fn pack_steps(s: Seq<Pixel>, policy: SeedPolicy, cfg: PackConfig) -> nat
    decreases s.len(),
{
    if s.len() == 0 {
        0
    } else {
        let rest = step_remaining(s, seed_of(s, policy), cfg);
        if rest.len() < s.len() {
            1 + pack_steps(rest, policy, cfg)
        } else {
            1
        }
    }
}

/// What holds of an accepted circle `c` in the set `s` that it was grown in:
/// it is large enough, and unless its radius is the untested radius 1 its
/// disc lies in `s` and no larger disc up to the limit does.
pub open spec fn well_grown(s: Seq<Pixel>, c: Circle, cfg: PackConfig) -> bool {
    &&& c.r >= cfg.min_radius
    &&& c.r != 1 ==> {
        &&& cfg.grow_from <= c.r <= cfg.max_radius
        &&& disc_valid(s, c.x as int, c.y as int, c.r as int)
        &&& forall|q: int|
            c.r < q <= cfg.max_radius ==> !#[trigger] disc_valid(s, c.x as int, c.y as int, q)
    }
}

/// A step takes the seed away, takes nothing else but members of the disc of
/// the grown circle, and leaves a set without repetition.
pub proof fn lemma_step_remaining(s: Seq<Pixel>, seed: Pixel, cfg: PackConfig)
    requires
        s.no_duplicates(),
    ensures
        step_remaining(s, seed, cfg).no_duplicates(),
        forall|q: Pixel|
            #[trigger] step_remaining(s, seed, cfg).contains(q) <==> s.contains(q) && !step_takes(
                s,
                seed,
                cfg,
                q,
            ),
        step_takes(s, seed, cfg, seed),
        step_remaining(s, seed, cfg).len() <= s.len(),
        s.contains(seed) ==> step_remaining(s, seed, cfg).len() < s.len(),
{
    let rest = step_remaining(s, seed, cfg);
    if step_accepts(s, seed, cfg) {
        let r = removal_radius(step_circle(s, seed, cfg).r, cfg.overlap_margin);
        let ps = disc_pixels(seed.x, seed.y, r);
        lemma_removed_all(s, ps);
        assert forall|q: Pixel| ps.contains(q) <==> in_disc(seed.x, seed.y, r, q) by {
            lemma_disc_pixels_contains(seed.x, seed.y, r, q);
        }
        assert(in_disc(seed.x, seed.y, r, seed)) by (nonlinear_arith)
            requires
                r >= 0,
        {
            assert(0 * 0 + 0 * 0 <= r * r);
        }
        if s.contains(seed) {
            lemma_fewer_members(rest, s, seed);
        }
    } else {
        lemma_swap_removed(s, seed);
    }
}

/// An order without repetition whose pixels all occur in `t`, and which lacks
/// a pixel of `t`, is shorter than `t`.
pub proof fn lemma_fewer_members(r: Seq<Pixel>, t: Seq<Pixel>, missing: Pixel)
    requires
        r.no_duplicates(),
        forall|q: Pixel| r.contains(q) ==> t.contains(q),
        t.contains(missing),
        !r.contains(missing),
    ensures
        r.len() < t.len(),
{
    r.unique_seq_to_set();
    vstd::seq_lib::seq_to_set_is_finite(t);
    vstd::seq_lib::seq_to_set_is_finite(r);
    t.lemma_cardinality_of_set();
    assert(r.to_set().subset_of(t.to_set().remove(missing))) by {
        assert forall|q: Pixel| r.to_set().contains(q) implies t.to_set().remove(missing).contains(
            q,
        ) by {
            assert(r.contains(q));
            assert(t.contains(q));
        }
    }
    assert(t.to_set().contains(missing));
    vstd::set_lib::lemma_len_subset(r.to_set(), t.to_set().remove(missing));
}

/// One step of the packing loop. A circle is grown around `seed`. A circle
/// below the accepted radius is rejected, and the seed alone leaves the set.
/// Any other circle is accepted and returned, and the pixels of its disc,
/// reduced by the overlap margin, leave the set.
pub fn pack_step(mask: &mut PixelSet, seed: Pixel, cfg: &PackConfig) -> (accepted: Option<Circle>)
    requires
        old(mask).wf(),
    ensures
        final(mask).wf(),
        accepted == if step_accepts(old(mask)@, seed, *cfg) {
            Some(step_circle(old(mask)@, seed, *cfg))
        } else {
            None
        },
        final(mask)@ == step_remaining(old(mask)@, seed, *cfg),
        forall|q: Pixel|
            #[trigger] final(mask)@.contains(q) <==> old(mask)@.contains(q) && !step_takes(
                old(mask)@,
                seed,
                *cfg,
                q,
            ),
        final(mask)@.len() <= old(mask)@.len(),
        old(mask)@.contains(seed) ==> final(mask)@.len() < old(mask)@.len(),
        accepted matches Some(c) ==> well_grown(old(mask)@, c, *cfg),
{
    proof {
        lemma_step_remaining(mask@, seed, *cfg);
    }
    let circle = find_biggest_circle(mask, seed.x, seed.y, cfg.grow_from, cfg.max_radius);
    if circle.r < cfg.min_radius {
        mask.remove(seed);
        return None;
    }
    let reduced: u32 = if circle.r >= cfg.overlap_margin {
        circle.r - cfg.overlap_margin
    } else {
        0
    };
    let to_rm = pixels_in_circle(circle.x, circle.y, reduced);
    remove_pixels(mask, &to_rm);
    Some(circle)
}

/// Takes the pixels of `pixels` out of the set, one after the other.
pub fn remove_pixels(mask: &mut PixelSet, pixels: &Vec<Pixel>)
    requires
        old(mask).wf(),
    ensures
        final(mask).wf(),
        final(mask)@ == removed_all(old(mask)@, pixels@),
        forall|q: Pixel|
            #[trigger] final(mask)@.contains(q) <==> old(mask)@.contains(q) && !pixels@.contains(q),
{
    let mut i: usize = 0;
    assert(pixels@.take(0) =~= Seq::<Pixel>::empty());
    while i < pixels.len()
        invariant
            i <= pixels.len(),
            mask.wf(),
            mask@ == removed_all(old(mask)@, pixels@.take(i as int)),
        decreases pixels.len() - i,
    {
        mask.remove(pixels[i]);
        i = i + 1;
        assert(pixels@.take(i as int).drop_last() =~= pixels@.take(i as int - 1));
    }
    proof {
        assert(pixels@.take(i as int) =~= pixels@);
        lemma_removed_all(old(mask)@, pixels@);
    }
}

/// The loop makes no more steps than the set has members, and accepts at
/// most one circle in each step.
pub proof fn lemma_pack_steps(s: Seq<Pixel>, policy: SeedPolicy, cfg: PackConfig)
    requires
        s.no_duplicates(),
    ensures
        pack_circles(s, policy, cfg).len() <= pack_steps(s, policy, cfg) <= s.len(),
    decreases s.len(),
{
    if s.len() > 0 {
        let seed = seed_of(s, policy);
        lemma_seed_is_member(s, policy);
        lemma_step_remaining(s, seed, cfg);
        lemma_pack_steps(step_remaining(s, seed, cfg), policy, cfg);
    }
}

/// The circles of a packing run: there are no more of them than the set had
/// members, each one is large enough and centred on a member, and unless its
/// radius is the untested radius 1 its disc lies in the set that the run
/// started from.
pub proof fn lemma_pack_circles(s: Seq<Pixel>, policy: SeedPolicy, cfg: PackConfig)
    requires
        s.no_duplicates(),
    ensures
        pack_circles(s, policy, cfg).len() <= s.len(),
        forall|i: int|
            0 <= i < pack_circles(s, policy, cfg).len() ==> {
                let c = #[trigger] pack_circles(s, policy, cfg)[i];
                &&& c.r >= cfg.min_radius
                &&& s.contains(Pixel { x: c.x, y: c.y })
                &&& c.r != 1 ==> disc_valid(s, c.x as int, c.y as int, c.r as int)
            },
    decreases s.len(),
{
    if s.len() > 0 {
        let seed = seed_of(s, policy);
        let rest = step_remaining(s, seed, cfg);
        lemma_seed_is_member(s, policy);
        lemma_step_remaining(s, seed, cfg);
        lemma_pack_circles(rest, policy, cfg);
        lemma_grown_radius(
            s,
            seed.x as int,
            seed.y as int,
            cfg.grow_from as int,
            cfg.max_radius as int,
        );
        let all = pack_circles(s, policy, cfg);
        assert forall|i: int| 0 <= i < all.len() implies {
            let c = #[trigger] all[i];
            &&& c.r >= cfg.min_radius
            &&& s.contains(Pixel { x: c.x, y: c.y })
            &&& c.r != 1 ==> disc_valid(s, c.x as int, c.y as int, c.r as int)
        } by {
            let c = all[i];
            if step_accepts(s, seed, cfg) && i == 0 {
                assert(c == step_circle(s, seed, cfg));
            } else {
                let j = if step_accepts(s, seed, cfg) {
                    i - 1
                } else {
                    i
                };
                assert(c == pack_circles(rest, policy, cfg)[j]);
                if c.r != 1 {
                    lemma_disc_valid_superset(rest, s, c.x as int, c.y as int, c.r as int);
                }
            }
        }
    }
}

/// Two orders without repetition that hold the same pixels have the same
/// length.
pub proof fn lemma_same_members_same_len(a: Seq<Pixel>, b: Seq<Pixel>)
    requires
        a.no_duplicates(),
        b.no_duplicates(),
        forall|p: Pixel| a.contains(p) <==> b.contains(p),
    ensures
        a.len() == b.len(),
{
    a.unique_seq_to_set();
    b.unique_seq_to_set();
    assert(a.to_set() =~= b.to_set());
}

/// Under the farthest-member policy the circles of a packing run depend on
/// which pixels are members, and not on the order in which the set holds
/// them.
pub proof fn lemma_pack_order_free(
    a: Seq<Pixel>,
    b: Seq<Pixel>,
    width: u32,
    height: u32,
    cfg: PackConfig,
)
    requires
        a.no_duplicates(),
        b.no_duplicates(),
        forall|p: Pixel| a.contains(p) <==> b.contains(p),
    ensures
        pack_circles(a, SeedPolicy::Farthest { width, height }, cfg) == pack_circles(
            b,
            SeedPolicy::Farthest { width, height },
            cfg,
        ),
    decreases a.len(),
{
    let policy = SeedPolicy::Farthest { width, height };
    lemma_same_members_same_len(a, b);
    if a.len() > 0 {
        lemma_farthest_seed_order_free(a, b, width, height);
        let seed = seed_of(a, policy);
        assert(seed == seed_of(b, policy));
        lemma_grown_radius_order_free(
            a,
            b,
            seed.x as int,
            seed.y as int,
            cfg.grow_from as int,
            cfg.max_radius as int,
        );
        assert(step_circle(a, seed, cfg) == step_circle(b, seed, cfg));
        lemma_seed_is_member(a, policy);
        lemma_seed_is_member(b, policy);
        lemma_step_remaining(a, seed, cfg);
        lemma_step_remaining(b, seed, cfg);
        let rest_a = step_remaining(a, seed, cfg);
        let rest_b = step_remaining(b, seed, cfg);
        assert forall|p: Pixel| rest_a.contains(p) <==> rest_b.contains(p) by {
            assert(step_takes(a, seed, cfg, p) == step_takes(b, seed, cfg, p));
        }
        lemma_pack_order_free(rest_a, rest_b, width, height, cfg);
    }
}

/// Two circles share a pixel.
pub open spec fn overlapping(a: Circle, b: Circle) -> bool {
    exists|p: Pixel| #[trigger] in_disc(a.x, a.y, a.r, p) && in_disc(b.x, b.y, b.r, p)
}

/// Without an overlap margin the circles of a packing run do not overlap: a
/// circle shares no pixel with an earlier one, unless its radius is the
/// untested radius 1.
pub proof fn lemma_pack_disjoint(s: Seq<Pixel>, policy: SeedPolicy, cfg: PackConfig)
    requires
        s.no_duplicates(),
        cfg.overlap_margin == 0,
    ensures
        forall|i: int, j: int|
            0 <= i < j < pack_circles(s, policy, cfg).len() && pack_circles(s, policy, cfg)[j].r
                != 1 ==> !overlapping(
                #[trigger] pack_circles(s, policy, cfg)[i],
                #[trigger] pack_circles(s, policy, cfg)[j],
            ),
    decreases s.len(),
{
    if s.len() > 0 {
        let seed = seed_of(s, policy);
        let rest = step_remaining(s, seed, cfg);
        let later = pack_circles(rest, policy, cfg);
        let all = pack_circles(s, policy, cfg);
        lemma_seed_is_member(s, policy);
        lemma_step_remaining(s, seed, cfg);
        lemma_pack_disjoint(rest, policy, cfg);
        lemma_pack_circles(rest, policy, cfg);
        assert forall|i: int, j: int| 0 <= i < j < all.len() && all[j].r != 1 implies !overlapping(
            #[trigger] all[i],
            #[trigger] all[j],
        ) by {
            if step_accepts(s, seed, cfg) {
                let first = step_circle(s, seed, cfg);
                assert(all[j] == later[j - 1]);
                if i == 0 {
                    let b = all[j];
                    assert(all[0] == first);
                    assert forall|p: Pixel| #[trigger]
                        in_disc(first.x, first.y, first.r, p) implies !in_disc(b.x, b.y, b.r, p) by {
                        if in_disc(b.x, b.y, b.r, p) {
                            assert(disc_point(
                                b.x as int,
                                b.y as int,
                                b.r as int,
                                p.x as int,
                                p.y as int,
                            ));
                            assert(holds(rest, p.x as int, p.y as int));
                            assert(rest.contains(p));
                            assert(step_takes(s, seed, cfg, p));
                        }
                    }
                } else {
                    assert(all[i] == later[i - 1]);
                }
            } else {
                assert(all[i] == later[i]);
                assert(all[j] == later[j]);
            }
        }
    }
}

/// Runs the packing loop until the set is empty: the policy chooses a seed,
/// a step is made with it, and so on. Returns the accepted circles in the
/// order of acceptance.
pub fn pack(mask: &mut PixelSet, policy: &SeedPolicy, cfg: &PackConfig) -> (circles: Vec<Circle>)
    requires
        old(mask).wf(),
    ensures
        final(mask).wf(),
        final(mask)@.len() == 0,
        circles@ == pack_circles(old(mask)@, *policy, *cfg),
        circles@.len() <= old(mask)@.len(),
        forall|i: int|
            0 <= i < circles@.len() ==> {
                let c = #[trigger] circles@[i];
                &&& c.r >= cfg.min_radius
                &&& old(mask)@.contains(Pixel { x: c.x, y: c.y })
                &&& c.r != 1 ==> disc_valid(old(mask)@, c.x as int, c.y as int, c.r as int)
            },
        cfg.overlap_margin == 0 ==> forall|i: int, j: int|
            0 <= i < j < circles@.len() && circles@[j].r != 1 ==> !overlapping(
                #[trigger] circles@[i],
                #[trigger] circles@[j],
            ),
{
    let mut circles: Vec<Circle> = Vec::new();
    assert(circles@ + pack_circles(mask@, *policy, *cfg) =~= pack_circles(
        old(mask)@,
        *policy,
        *cfg,
    ));
    loop
        invariant
            mask.wf(),
            circles@ + pack_circles(mask@, *policy, *cfg) == pack_circles(
                old(mask)@,
                *policy,
                *cfg,
            ),
        ensures
            mask.wf(),
            mask@.len() == 0,
            circles@ == pack_circles(old(mask)@, *policy, *cfg),
        decreases mask@.len(),
    {
        let ghost before = mask@;
        let ghost found = circles@;
        match select_seed(mask, policy) {
            None => {
                assert(circles@ + pack_circles(mask@, *policy, *cfg) =~= circles@);
                break;
            },
            Some(seed) => {
                match pack_step(mask, seed, cfg) {
                    Some(c) => {
                        circles.push(c);
                    },
                    None => {},
                }
                assert(circles@ + pack_circles(mask@, *policy, *cfg) =~= found + pack_circles(
                    before,
                    *policy,
                    *cfg,
                ));
            },
        }
    }
    proof {
        lemma_pack_circles(old(mask)@, *policy, *cfg);
        lemma_pack_steps(old(mask)@, *policy, *cfg);
        if cfg.overlap_margin == 0 {
            lemma_pack_disjoint(old(mask)@, *policy, *cfg);
        }
    }
    circles
}

/// The configuration of the first of two passes: only circles of the largest
/// radius are accepted, and each takes its whole disc away.
pub open spec fn strict_config(cfg: PackConfig) -> PackConfig {
    PackConfig {
        grow_from: cfg.grow_from,
        max_radius: cfg.max_radius,
        min_radius: cfg.max_radius,
        overlap_margin: 0,
    }
}

/// The set `s` without the discs of the circles, each reduced by the margin.
pub open spec fn carved(s: Seq<Pixel>, cs: Seq<Circle>, margin: u32) -> Seq<Pixel>
    decreases cs.len(),
{
    if cs.len() == 0 {
        s
    } else {
        removed_all(
            carved(s, cs.drop_last(), margin),
            disc_pixels(cs.last().x, cs.last().y, removal_radius(cs.last().r, margin)),
        )
    }
}

/// The circles of a run in two passes over the set `s`: those of the strict
/// pass, then those of a pass over `s` without the reduced discs of the
/// former.
pub open spec fn two_pass_circles(s: Seq<Pixel>, policy: SeedPolicy, cfg: PackConfig) -> Seq<
    Circle,
> {
    let large = pack_circles(s, policy, strict_config(cfg));
    large + pack_circles(carved(s, large, cfg.overlap_margin), policy, cfg)
}

/// Carving keeps the members distinct and takes away members only.
pub proof fn lemma_carved(s: Seq<Pixel>, cs: Seq<Circle>, margin: u32)
    requires
        s.no_duplicates(),
    ensures
        carved(s, cs, margin).no_duplicates(),
        forall|q: Pixel| #[trigger] carved(s, cs, margin).contains(q) ==> s.contains(q),
        forall|q: Pixel, i: int|
            0 <= i < cs.len() && in_disc(cs[i].x, cs[i].y, removal_radius(cs[i].r, margin), q)
                ==> !carved(s, cs, margin).contains(q),
    decreases cs.len(),
{
    if cs.len() > 0 {
        let head = cs.drop_last();
        let c = cs.last();
        let disc = disc_pixels(c.x, c.y, removal_radius(c.r, margin));
        lemma_carved(s, head, margin);
        lemma_removed_all(carved(s, head, margin), disc);
        assert forall|q: Pixel, i: int|
            0 <= i < cs.len() && in_disc(
                cs[i].x,
                cs[i].y,
                removal_radius(cs[i].r, margin),
                q,
            ) implies !carved(s, cs, margin).contains(q) by {
            if i < head.len() {
                assert(head[i] == cs[i]);
            } else {
                lemma_disc_pixels_contains(
                    c.x,
                    c.y,
                    removal_radius(c.r, margin),
                    q,
                );
            }
        }
    }
}

/// Takes the discs of the circles, each reduced by the margin, out of the set.
pub fn carve(mask: &mut PixelSet, circles: &Vec<Circle>, margin: u32)
    requires
        old(mask).wf(),
    ensures
        final(mask).wf(),
        final(mask)@ == carved(old(mask)@, circles@, margin),
{
    let mut i: usize = 0;
    assert(circles@.take(0) =~= Seq::<Circle>::empty());
    while i < circles.len()
        invariant
            i <= circles.len(),
            mask.wf(),
            mask@ == carved(old(mask)@, circles@.take(i as int), margin),
        decreases circles.len() - i,
    {
        let c = circles[i];
        let reduced: u32 = if c.r >= margin {
            c.r - margin
        } else {
            0
        };
        let disc = pixels_in_circle(c.x, c.y, reduced);
        remove_pixels(mask, &disc);
        i = i + 1;
        assert(circles@.take(i as int).drop_last() =~= circles@.take(i as int - 1));
    }
    assert(circles@.take(i as int) =~= circles@);
}

/// Packs in two passes. The first pass accepts only circles of the largest
/// radius. The second pass starts from the set without the discs of those
/// circles, each reduced by the overlap margin, and accepts circles from the
/// configured radius on. Returns the circles of the first pass followed by
/// those of the second. The set itself is left as it is.
pub fn pack_two_pass(mask: &PixelSet, policy: &SeedPolicy, cfg: &PackConfig) -> (circles: Vec<
    Circle,
>)
    requires
        mask.wf(),
    ensures
        circles@ == two_pass_circles(mask@, *policy, *cfg),
        forall|i: int|
            0 <= i < circles@.len() ==> {
                let c = #[trigger] circles@[i];
                &&& mask@.contains(Pixel { x: c.x, y: c.y })
                &&& c.r != 1 ==> disc_valid(mask@, c.x as int, c.y as int, c.r as int)
            },
{
    let strict = PackConfig {
        grow_from: cfg.grow_from,
        max_radius: cfg.max_radius,
        min_radius: cfg.max_radius,
        overlap_margin: 0,
    };
    let mut first = mask.copy();
    let mut circles = pack(&mut first, policy, &strict);
    let ghost large = circles@;
    let mut second = mask.copy();
    carve(&mut second, &circles, cfg.overlap_margin);
    let ghost rest = second@;
    let mut small = pack(&mut second, policy, cfg);
    proof {
        lemma_carved(mask@, large, cfg.overlap_margin);
        assert forall|i: int| 0 <= i < small@.len() implies {
            let c = #[trigger] small@[i];
            &&& mask@.contains(Pixel { x: c.x, y: c.y })
            &&& c.r != 1 ==> disc_valid(mask@, c.x as int, c.y as int, c.r as int)
        } by {
            let c = small@[i];
            if c.r != 1 {
                lemma_disc_valid_superset(rest, mask@, c.x as int, c.y as int, c.r as int);
            }
        }
    }
    circles.append(&mut small);
    circles
}

} // verus!
