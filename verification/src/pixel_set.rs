//! The set of foreground pixels: unique members kept in insertion order.

use crate::geometry::Pixel;
use indexmap::IndexSet;
use std::collections::hash_map::RandomState;
use vstd::prelude::*;

verus! {

#[verifier::external_type_specification]
#[verifier::external_body]
#[verifier::reject_recursive_types(T)]
#[verifier::reject_recursive_types(S)]
pub struct ExIndexSet<T, S>(IndexSet<T, S>);

/// The coordinate pairs that an `IndexSet` holds, in the order in which it
/// iterates over them.
pub uninterp spec fn index_set_items(s: IndexSet<(u32, u32), RandomState>) -> Seq<(u32, u32)>;

/// `IndexSet::new`: the new set holds nothing.
#[verifier::external_body]
fn index_set_new() -> (s: IndexSet<(u32, u32), RandomState>)
    ensures
        index_set_items(s) == Seq::<(u32, u32)>::empty(),
{
    IndexSet::new()
}

/// `IndexSet::len`: the number of items held.
#[verifier::external_body]
fn index_set_len(s: &IndexSet<(u32, u32), RandomState>) -> (n: usize)
    ensures
        n == index_set_items(*s).len(),
{
    s.len()
}

/// `IndexSet::contains`: whether an item equal to `k` is held.
#[verifier::external_body]
fn index_set_contains(s: &IndexSet<(u32, u32), RandomState>, k: (u32, u32)) -> (b: bool)
    ensures
        b == index_set_items(*s).contains(k),
{
    s.contains(&k)
}

/// `IndexSet::get_index`: the item at position `i` of the iteration order, or
/// nothing where `i` is not below the length.
#[verifier::external_body]
fn index_set_get_index(s: &IndexSet<(u32, u32), RandomState>, i: usize) -> (r: Option<(u32, u32)>)
    ensures
        r == if i < index_set_items(*s).len() {
            Some(index_set_items(*s)[i as int])
        } else {
            None
        },
{
    s.get_index(i).copied()
}

/// `IndexSet::insert`: an item that is already held changes nothing and gives
/// `false`; a new item goes to the end of the order and gives `true`.
#[verifier::external_body]
fn index_set_insert(s: &mut IndexSet<(u32, u32), RandomState>, k: (u32, u32)) -> (b: bool)
    ensures
        b == !index_set_items(*old(s)).contains(k),
        index_set_items(*final(s)) == if b {
            index_set_items(*old(s)).push(k)
        } else {
            index_set_items(*old(s))
        },
{
    s.insert(k)
}

/// `IndexSet::swap_remove`: an item that is not held changes nothing and gives
/// `false`; an item that is held gives `true`, the last item of the order
/// takes its position, and the order becomes one shorter.
#[verifier::external_body]
fn index_set_swap_remove(s: &mut IndexSet<(u32, u32), RandomState>, k: (u32, u32)) -> (b: bool)
    ensures
        b == index_set_items(*old(s)).contains(k),
        !b ==> index_set_items(*final(s)) == index_set_items(*old(s)),
        forall|i: int|
            0 <= i < index_set_items(*old(s)).len() && index_set_items(*old(s))[i] == k
                ==> index_set_items(*final(s)) == index_set_items(*old(s)).update(
                i,
                index_set_items(*old(s)).last(),
            ).drop_last(),
{
    s.swap_remove(&k)
}

/// The pixel that a coordinate pair stands for.
pub open spec fn pixel_of(k: (u32, u32)) -> Pixel {
    Pixel { x: k.0, y: k.1 }
}

/// The order `s` after the removal of `p`: where `p` occurs, the last pixel
/// moves to its position and the order becomes one shorter.
pub open spec fn swap_removed(s: Seq<Pixel>, p: Pixel) -> Seq<Pixel> {
    if s.contains(p) {
        s.update(s.index_of(p), s.last()).drop_last()
    } else {
        s
    }
}

/// The order `s` after the removal of the pixels of `ps`, one after the other.
pub open spec fn removed_all(s: Seq<Pixel>, ps: Seq<Pixel>) -> Seq<Pixel>
    decreases ps.len(),
{
    if ps.len() == 0 {
        s
    } else {
        swap_removed(removed_all(s, ps.drop_last()), ps.last())
    }
}

/// Removal keeps the members distinct and takes away exactly the removed pixel.
pub proof fn lemma_swap_removed(s: Seq<Pixel>, p: Pixel)
    requires
        s.no_duplicates(),
    ensures
        swap_removed(s, p).no_duplicates(),
        forall|q: Pixel| #[trigger] swap_removed(s, p).contains(q) <==> s.contains(q) && q != p,
        swap_removed(s, p).len() == s.len() - (if s.contains(p) { 1int } else { 0int }),
{
    let t = swap_removed(s, p);
    if s.contains(p) {
        let i = s.index_of(p);
        let n = s.len() as int;
        assert forall|q: Pixel| t.contains(q) <==> s.contains(q) && q != p by {
            if t.contains(q) {
                let j = choose|j: int| 0 <= j < t.len() && t[j] == q;
                if j == i {
                    assert(s[n - 1] == q);
                } else {
                    assert(s[j] == q);
                }
            }
            if s.contains(q) && q != p {
                let j = choose|j: int| 0 <= j < s.len() && s[j] == q;
                if j == n - 1 {
                    assert(t[i] == q);
                } else {
                    assert(t[j] == q);
                }
            }
        }
    }
}

/// Removing a list of pixels keeps the members distinct and takes away
/// exactly the members that the list holds.
pub proof fn lemma_removed_all(s: Seq<Pixel>, ps: Seq<Pixel>)
    requires
        s.no_duplicates(),
    ensures
        removed_all(s, ps).no_duplicates(),
        forall|q: Pixel|
            #[trigger] removed_all(s, ps).contains(q) <==> s.contains(q) && !ps.contains(q),
        removed_all(s, ps).len() <= s.len(),
    decreases ps.len(),
{
    if ps.len() > 0 {
        let head = ps.drop_last();
        lemma_removed_all(s, head);
        lemma_swap_removed(removed_all(s, head), ps.last());
        assert forall|q: Pixel| removed_all(s, ps).contains(q) <==> s.contains(q) && !ps.contains(
            q,
        ) by {
            if ps.contains(q) && q != ps.last() {
                let j = choose|j: int| 0 <= j < ps.len() && ps[j] == q;
                assert(head[j] == q);
            }
            if head.contains(q) {
                let j = choose|j: int| 0 <= j < head.len() && head[j] == q;
                assert(ps[j] == q);
            }
            assert(ps[ps.len() - 1] == ps.last());
        }
    }
}

/// A set of pixels that remembers the order in which its members arrived.
pub struct PixelSet {
    items: IndexSet<(u32, u32), RandomState>,
}

impl View for PixelSet {
    type V = Seq<Pixel>;

    /// The members in iteration order.
    closed spec fn view(&self) -> Seq<Pixel> {
        Seq::new(
            index_set_items(self.items).len(),
            |i: int| pixel_of(index_set_items(self.items)[i]),
        )
    }
}

impl PixelSet {
    /// No pixel occurs twice.
    pub open spec fn wf(&self) -> bool {
        self@.no_duplicates()
    }

    proof fn lemma_view_contains(&self, p: Pixel)
        ensures
            self@.contains(p) <==> index_set_items(self.items).contains((p.x, p.y)),
    {
        let items = index_set_items(self.items);
        if self@.contains(p) {
            let i = choose|i: int| 0 <= i < self@.len() && self@[i] == p;
            assert(items[i] == (p.x, p.y));
        }
        if items.contains((p.x, p.y)) {
            let i = choose|i: int| 0 <= i < items.len() && items[i] == (p.x, p.y);
            assert(self@[i] == p);
        }
    }

    /// The empty set.
    pub fn new() -> (s: Self)
        ensures
            s.wf(),
            s@ == Seq::<Pixel>::empty(),
    {
        let s = PixelSet { items: index_set_new() };
        assert(s@ =~= Seq::<Pixel>::empty());
        s
    }

    /// The number of members.
    pub fn len(&self) -> (n: usize)
        ensures
            n == self@.len(),
    {
        index_set_len(&self.items)
    }

    /// Whether the set has no member.
    pub fn is_empty(&self) -> (b: bool)
        ensures
            b == (self@.len() == 0),
    {
        index_set_len(&self.items) == 0
    }

    /// Whether `p` is a member.
    pub fn contains(&self, p: Pixel) -> (b: bool)
        ensures
            b == self@.contains(p),
    {
        proof {
            self.lemma_view_contains(p);
        }
        index_set_contains(&self.items, (p.x, p.y))
    }

    /// The member at position `i` of the iteration order.
    pub fn get(&self, i: usize) -> (r: Option<Pixel>)
        ensures
            r == if i < self@.len() {
                Some(self@[i as int])
            } else {
                None
            },
    {
        match index_set_get_index(&self.items, i) {
            Some(k) => Some(Pixel { x: k.0, y: k.1 }),
            None => None,
        }
    }

    /// The first member of the iteration order.
    pub fn first(&self) -> (r: Option<Pixel>)
        ensures
            r == if self@.len() > 0 {
                Some(self@[0])
            } else {
                None
            },
    {
        self.get(0)
    }

    /// Adds `p` at the end of the order unless it is a member already; tells
    /// whether it was added.
    pub fn insert(&mut self, p: Pixel) -> (b: bool)
        requires
            old(self).wf(),
        ensures
            final(self).wf(),
            b == !old(self)@.contains(p),
            final(self)@ == if b {
                old(self)@.push(p)
            } else {
                old(self)@
            },
    {
        proof {
            self.lemma_view_contains(p);
        }
        let b = index_set_insert(&mut self.items, (p.x, p.y));
        assert(self@ =~= if b {
            old(self)@.push(p)
        } else {
            old(self)@
        });
        b
    }

    /// Removes `p` if it is a member: the last member takes its position.
    /// Tells whether it was a member.
    pub fn remove(&mut self, p: Pixel) -> (b: bool)
        requires
            old(self).wf(),
        ensures
            final(self).wf(),
            b == old(self)@.contains(p),
            final(self)@ == swap_removed(old(self)@, p),
            forall|q: Pixel|
                #[trigger] final(self)@.contains(q) <==> old(self)@.contains(q) && q != p,
            final(self)@.len() == old(self)@.len() - (if b { 1int } else { 0int }),
    {
        proof {
            self.lemma_view_contains(p);
            lemma_swap_removed(self@, p);
            if self@.contains(p) {
                let i = self@.index_of(p);
                assert(index_set_items(self.items)[i] == (p.x, p.y));
            }
        }
        let b = index_set_swap_remove(&mut self.items, (p.x, p.y));
        assert(self@ =~= swap_removed(old(self)@, p));
        b
    }

    /// A second set with the same members in the same order.
    pub fn copy(&self) -> (out: Self)
        requires
            self.wf(),
        ensures
            out.wf(),
            out@ == self@,
    {
        let mut out = PixelSet::new();
        let n = self.len();
        let mut i: usize = 0;
        while i < n
            invariant
                self.wf(),
                n == self@.len(),
                i <= n,
                out.wf(),
                out@ == self@.take(i as int),
            decreases n - i,
        {
            match self.get(i) {
                Some(p) => {
                    assert(!self@.take(i as int).contains(p)) by {
                        if self@.take(i as int).contains(p) {
                            let j = choose|j: int|
                                0 <= j < self@.take(i as int).len() && self@.take(i as int)[j] == p;
                            assert(self@[j] == self@[i as int]);
                        }
                    }
                    out.insert(p);
                },
                None => {},
            }
            i = i + 1;
            assert(out@ =~= self@.take(i as int));
        }
        assert(self@.take(n as int) =~= self@);
        out
    }

    /// The members in iteration order.
    pub fn pixels(&self) -> (out: Vec<Pixel>)
        ensures
            out@ == self@,
    {
        let mut out: Vec<Pixel> = Vec::new();
        let n = self.len();
        let mut i: usize = 0;
        while i < n
            invariant
                n == self@.len(),
                i <= n,
                out@ == self@.take(i as int),
            decreases n - i,
        {
            match self.get(i) {
                Some(p) => {
                    out.push(p);
                },
                None => {},
            }
            i = i + 1;
            assert(out@ =~= self@.take(i as int));
        }
        assert(self@.take(n as int) =~= self@);
        out
    }
}

} // verus!
