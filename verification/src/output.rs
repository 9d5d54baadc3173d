//! The textual form of a list of circles.

use crate::geometry::Circle;
use vstd::prelude::*;

verus! {

/// The character of a decimal digit.
pub open spec fn digit_char(d: int) -> char {
    if d == 0 {
        '0'
    } else if d == 1 {
        '1'
    } else if d == 2 {
        '2'
    } else if d == 3 {
        '3'
    } else if d == 4 {
        '4'
    } else if d == 5 {
        '5'
    } else if d == 6 {
        '6'
    } else if d == 7 {
        '7'
    } else if d == 8 {
        '8'
    } else {
        '9'
    }
}

/// The decimal digits of `n`, without leading zeros.
pub open spec fn decimal(n: nat) -> Seq<char>
    decreases n,
{
    if n < 10 {
        seq![digit_char(n as int)]
    } else {
        decimal(n / 10).push(digit_char((n % 10) as int))
    }
}

/// The text of one circle: `[x,y,r]`.
pub open spec fn circle_text(c: Circle) -> Seq<char> {
    seq!['['] + decimal(c.x as nat) + seq![','] + decimal(c.y as nat) + seq![','] + decimal(
        c.r as nat,
    ) + seq![']']
}

/// The circle `c` with its row counted from the bottom of an image of the
/// given height.
pub open spec fn flipped(c: Circle, height: u32) -> Circle {
    Circle { x: c.x, y: (height - c.y) as u32, r: c.r }
}

/// The texts of the flipped circles, with a comma between two of them.
pub open spec fn joined_text(cs: Seq<Circle>, height: u32) -> Seq<char>
    decreases cs.len(),
{
    if cs.len() == 0 {
        Seq::empty()
    } else if cs.len() == 1 {
        circle_text(flipped(cs[0], height))
    } else {
        joined_text(cs.drop_last(), height) + seq![','] + circle_text(flipped(cs.last(), height))
    }
}

/// The output line for a list of circles: the joined texts in square brackets,
/// followed by a comma.
pub open spec fn output_text(cs: Seq<Circle>, height: u32) -> Seq<char> {
    seq!['['] + joined_text(cs, height) + seq![']', ',']
}

/// `String::push`: the character is appended to the string.
#[verifier::external_body]
fn push_char(s: &mut String, c: char)
    ensures
        final(s)@ == old(s)@.push(c),
{
    s.push(c)
}

/// The character of the decimal digit `d`.
pub fn digit_of(d: u32) -> (c: char)
    requires
        d < 10,
    ensures
        c == digit_char(d as int),
{
    if d == 0 {
        '0'
    } else if d == 1 {
        '1'
    } else if d == 2 {
        '2'
    } else if d == 3 {
        '3'
    } else if d == 4 {
        '4'
    } else if d == 5 {
        '5'
    } else if d == 6 {
        '6'
    } else if d == 7 {
        '7'
    } else if d == 8 {
        '8'
    } else {
        '9'
    }
}

/// Appends the decimal digits of `n` to `s`.
pub fn push_decimal(s: &mut String, n: u32)
    ensures
        final(s)@ == old(s)@ + decimal(n as nat),
    decreases n,
{
    if n >= 10 {
        push_decimal(s, n / 10);
    }
    push_char(s, digit_of(n % 10));
    assert(s@ =~= old(s)@ + decimal(n as nat));
}

/// Appends the text of `c` to `s`.
pub fn push_circle(s: &mut String, c: Circle)
    ensures
        final(s)@ == old(s)@ + circle_text(c),
{
    push_char(s, '[');
    push_decimal(s, c.x);
    push_char(s, ',');
    push_decimal(s, c.y);
    push_char(s, ',');
    push_decimal(s, c.r);
    push_char(s, ']');
    assert(s@ =~= old(s)@ + circle_text(c));
}

impl Circle {
    /// The text of the circle: `[x,y,r]`.
    pub fn text(&self) -> (s: String)
        ensures
            s@ == circle_text(*self),
    {
        let mut s = String::new();
        push_circle(&mut s, *self);
        assert(s@ =~= circle_text(*self));
        s
    }
}

/// Writes the output line for `circles`, found in an image of the given
/// height: each circle as `[x,y,r]` with its row counted from the bottom,
/// a comma between two circles, the whole in square brackets, and a comma at
/// the end.
pub fn format_circles(circles: &Vec<Circle>, height: u32) -> (line: String)
    requires
        forall|i: int| 0 <= i < circles@.len() ==> circles@[i].y <= height,
    ensures
        line@ == output_text(circles@, height),
{
    let mut line = String::new();
    push_char(&mut line, '[');
    let mut i: usize = 0;
    assert(circles@.take(0) =~= Seq::<Circle>::empty());
    while i < circles.len()
        invariant
            i <= circles.len(),
            forall|k: int| 0 <= k < circles@.len() ==> circles@[k].y <= height,
            line@ == seq!['['] + joined_text(circles@.take(i as int), height),
        decreases circles.len() - i,
    {
        let ghost before = line@;
        let c = circles[i];
        if i > 0 {
            push_char(&mut line, ',');
        }
        push_circle(&mut line, Circle { x: c.x, y: height - c.y, r: c.r });
        i = i + 1;
        proof {
            let head = circles@.take(i as int);
            assert(head.drop_last() =~= circles@.take(i as int - 1));
            assert(head.last() == c);
            assert(line@ =~= seq!['['] + joined_text(head, height));
        }
    }
    assert(circles@.take(i as int) =~= circles@);
    push_char(&mut line, ']');
    push_char(&mut line, ',');
    assert(line@ =~= output_text(circles@, height));
    line
}

} // verus!
