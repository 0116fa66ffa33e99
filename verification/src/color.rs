//! Colors and color pairs. A color is a 4-channel RGBA value with exact
//! channel-wise equality and a lexicographic total order over the
//! (r, g, b, a) channel bytes; a pair is an ordered (origin, neighbor)
//! couple of colors with the lexicographic order by origin then neighbor.

use vstd::prelude::*;

verus! {

/// A 4-channel 8-bit color. Equality is exact channel-wise equality.
#[derive(Clone, Copy, PartialEq, Eq, Structural, Hash, Debug)]
pub struct Color {
    pub r: u8,
    pub g: u8,
    pub b: u8,
    pub a: u8,
}

/// An ordered pair of adjacent colors: the color at the examined pixel and
/// the color of one of its neighbors.
#[derive(Clone, Copy, PartialEq, Eq, Structural, Hash, Debug)]
pub struct PixelPair {
    pub origin: Color,
    pub neighbor: Color,
}

/// The pair with origin and neighbor exchanged.
pub open spec fn swap_spec(p: PixelPair) -> PixelPair {
    PixelPair { origin: p.neighbor, neighbor: p.origin }
}

/// Packs the four channel bytes into one integer; comparing keys is exactly
/// the lexicographic comparison of (r, g, b, a).
pub open spec fn color_key(c: Color) -> int {
    c.r * 0x1000000 + c.g * 0x10000 + c.b * 0x100 + c.a
}

/// Packs a pair's eight channel bytes into one integer; comparing keys is
/// exactly the lexicographic comparison by origin color then neighbor color.
pub open spec fn pair_key(p: PixelPair) -> int {
    color_key(p.origin) * 0x100000000 + color_key(p.neighbor)
}

/// The packed key determines the pair: equal keys mean equal pairs.
pub proof fn lemma_pair_key_injective(p: PixelPair, q: PixelPair)
    requires
        pair_key(p) == pair_key(q),
    ensures
        p == q,
{
    assert(0 <= color_key(p.neighbor) < 0x100000000);
    assert(0 <= color_key(q.neighbor) < 0x100000000);
    assert(color_key(p.origin) == color_key(q.origin));
    assert(color_key(p.neighbor) == color_key(q.neighbor));
    assert(p.origin == q.origin);
    assert(p.neighbor == q.neighbor);
}

impl Color {
    /// The packed channel key, computed executably.
    pub fn key(&self) -> (r: u32)
        ensures
            r == color_key(*self),
    {
        (self.r as u32) * 0x1000000 + (self.g as u32) * 0x10000 + (self.b as u32) * 0x100
            + (self.a as u32)
    }
}

impl PixelPair {
    /// Produces the reversed pair (neighbor, origin).
    pub fn swap(&self) -> (r: PixelPair)
        ensures
            r == swap_spec(*self),
    {
        PixelPair { origin: self.neighbor, neighbor: self.origin }
    }

    /// The packed key of both colors, computed executably.
    pub fn key(&self) -> (r: u64)
        ensures
            r == pair_key(*self),
    {
        (self.origin.key() as u64) * 0x100000000 + (self.neighbor.key() as u64)
    }
}

/// Lexicographic order over the (r, g, b, a) channel bytes.
pub open spec fn color_lt(c1: Color, c2: Color) -> bool {
    c1.r < c2.r || (c1.r == c2.r && (c1.g < c2.g || (c1.g == c2.g && (c1.b < c2.b || (c1.b == c2.b
        && c1.a < c2.a)))))
}

/// Lexicographic order by origin color, then neighbor color.
pub open spec fn pair_lt(p: PixelPair, q: PixelPair) -> bool {
    color_lt(p.origin, q.origin) || (p.origin == q.origin && color_lt(p.neighbor, q.neighbor))
}

/// Comparing packed keys is the lexicographic comparison of the pairs.
pub proof fn lemma_key_order_is_lexicographic(p: PixelPair, q: PixelPair)
    ensures
        pair_key(p) < pair_key(q) <==> pair_lt(p, q),
{
    if color_lt(p.origin, q.origin) {
        assert(color_key(p.origin) < color_key(q.origin));
    } else if color_lt(q.origin, p.origin) {
        assert(color_key(q.origin) < color_key(p.origin));
    } else {
        assert(p.origin == q.origin);
    }
}

} // verus!
