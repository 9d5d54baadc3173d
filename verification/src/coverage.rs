//! The pixels that a list of circles covers.

use crate::geometry::{disc_pixels, in_disc, lemma_disc_pixels_contains, pixels_in_circle, Circle, Pixel};
use crate::pixel_set::PixelSet;
use vstd::prelude::*;

verus! {

/// The pixel `p` lies in the disc of one of the circles.
pub open spec fn covered(cs: Seq<Circle>, p: Pixel) -> bool {
    exists|i: int| 0 <= i < cs.len() && in_disc(cs[i].x, cs[i].y, cs[i].r, p)
}

/// The order `s` after the pixels of `ps` arrived one after the other: a
/// pixel that is there already changes nothing, a new one goes to the end.
pub open spec fn added_all(s: Seq<Pixel>, ps: Seq<Pixel>) -> Seq<Pixel>
    decreases ps.len(),
{
    if ps.len() == 0 {
        s
    } else {
        let head = added_all(s, ps.drop_last());
        if head.contains(ps.last()) {
            head
        } else {
            head.push(ps.last())
        }
    }
}

/// The pixels of the discs of the circles, each once, in the order in which
/// they are first met when the discs are walked one after the other.
pub open spec fn coverage(cs: Seq<Circle>) -> Seq<Pixel>
    decreases cs.len(),
{
    if cs.len() == 0 {
        Seq::empty()
    } else {
        added_all(coverage(cs.drop_last()), disc_pixels(cs.last().x, cs.last().y, cs.last().r))
    }
}

/// Adding a list of pixels keeps the members distinct and adds exactly the
/// pixels of the list.
pub proof fn lemma_added_all(s: Seq<Pixel>, ps: Seq<Pixel>)
    requires
        s.no_duplicates(),
    ensures
        added_all(s, ps).no_duplicates(),
        forall|q: Pixel| #[trigger] added_all(s, ps).contains(q) <==> s.contains(q) || ps.contains(q),
    decreases ps.len(),
{
    if ps.len() > 0 {
        let init = ps.drop_last();
        let head = added_all(s, init);
        let all = added_all(s, ps);
        lemma_added_all(s, init);
        assert forall|q: Pixel| all.contains(q) <==> s.contains(q) || ps.contains(q) by {
            if head.contains(q) {
                let j = choose|j: int| 0 <= j < head.len() && head[j] == q;
                assert(all[j] == q);
            }
            if init.contains(q) {
                let j = choose|j: int| 0 <= j < init.len() && init[j] == q;
                assert(ps[j] == q);
            }
            if ps.contains(q) && q != ps.last() {
                let j = choose|j: int| 0 <= j < ps.len() && ps[j] == q;
                assert(init[j] == q);
            }
            if q == ps.last() {
                assert(ps[ps.len() - 1] == q);
                if !head.contains(q) {
                    assert(all[head.len() as int] == q);
                }
            }
            if all.contains(q) && !head.contains(q) {
                let j = choose|j: int| 0 <= j < all.len() && all[j] == q;
                if j < head.len() {
                    assert(head[j] == q);
                }
            }
        }
    }
}

/// The coverage of a list of circles has no repetition and holds exactly the
/// pixels that lie in one of the discs.
pub proof fn lemma_coverage(cs: Seq<Circle>)
    ensures
        coverage(cs).no_duplicates(),
        forall|q: Pixel| #[trigger] coverage(cs).contains(q) <==> covered(cs, q),
    decreases cs.len(),
{
    if cs.len() > 0 {
        let init = cs.drop_last();
        let c = cs.last();
        lemma_coverage(init);
        lemma_added_all(coverage(init), disc_pixels(c.x, c.y, c.r));
        assert forall|q: Pixel| coverage(cs).contains(q) <==> covered(cs, q) by {
            lemma_disc_pixels_contains(c.x, c.y, c.r, q);
            if covered(init, q) {
                let i = choose|i: int|
                    0 <= i < init.len() && in_disc(init[i].x, init[i].y, init[i].r, q);
                assert(cs[i] == init[i]);
            }
            if in_disc(c.x, c.y, c.r, q) {
                assert(cs[cs.len() - 1] == c);
            }
            if covered(cs, q) {
                let i = choose|i: int| 0 <= i < cs.len() && in_disc(cs[i].x, cs[i].y, cs[i].r, q);
                if i < init.len() {
                    assert(init[i] == cs[i]);
                }
            }
        }
    } else {
        assert forall|q: Pixel| coverage(cs).contains(q) <==> covered(cs, q) by {
            if coverage(cs).contains(q) {
                let j = choose|j: int| 0 <= j < coverage(cs).len() && coverage(cs)[j] == q;
            }
        }
    }
}

/// Adds the pixels of `pixels` to the set, one after the other.
pub fn add_pixels(set: &mut PixelSet, pixels: &Vec<Pixel>)
    requires
        old(set).wf(),
    ensures
        final(set).wf(),
        final(set)@ == added_all(old(set)@, pixels@),
        forall|q: Pixel|
            #[trigger] final(set)@.contains(q) <==> old(set)@.contains(q) || pixels@.contains(q),
{
    let mut i: usize = 0;
    assert(pixels@.take(0) =~= Seq::<Pixel>::empty());
    while i < pixels.len()
        invariant
            i <= pixels.len(),
            set.wf(),
            set@ == added_all(old(set)@, pixels@.take(i as int)),
        decreases pixels.len() - i,
    {
        set.insert(pixels[i]);
        i = i + 1;
        assert(pixels@.take(i as int).drop_last() =~= pixels@.take(i as int - 1));
    }
    proof {
        assert(pixels@.take(i as int) =~= pixels@);
        lemma_added_all(old(set)@, pixels@);
    }
}

/// Collects the pixels that the circles cover: every pixel that lies in the
/// disc of one of them, once.
pub fn covered_pixels(circles: &Vec<Circle>) -> (set: PixelSet)
    ensures
        set.wf(),
        set@ == coverage(circles@),
        forall|q: Pixel| #[trigger] set@.contains(q) <==> covered(circles@, q),
{
    let mut set = PixelSet::new();
    let mut i: usize = 0;
    assert(circles@.take(0) =~= Seq::<Circle>::empty());
    while i < circles.len()
        invariant
            i <= circles.len(),
            set.wf(),
            set@ == coverage(circles@.take(i as int)),
        decreases circles.len() - i,
    {
        let c = circles[i];
        let disc = pixels_in_circle(c.x, c.y, c.r);
        add_pixels(&mut set, &disc);
        i = i + 1;
        assert(circles@.take(i as int).drop_last() =~= circles@.take(i as int - 1));
    }
    proof {
        assert(circles@.take(i as int) =~= circles@);
        lemma_coverage(circles@);
    }
    set
}

} // verus!
