//! Axis-aligned rectangles on an unsigned pixel grid, with the containment
//! and overlap notions the atlas allocator is specified with.

use vstd::prelude::*;

verus! {

/// An axis-aligned rectangle: origin `(x, y)` and extent `width` x `height`.
/// A rectangle covers the half-open pixel ranges `[x, x + width)` and
/// `[y, y + height)`; a zero extent in either dimension covers nothing.
#[derive(Clone, Copy, Debug, PartialEq, Eq, Structural)]
pub struct Rect {
    pub x: u32,
    pub y: u32,
    pub width: u32,
    pub height: u32,
}

/// One past the rightmost column covered by `r`.
pub open spec fn rect_right(r: Rect) -> int {
    r.x + r.width
}

/// One past the bottommost row covered by `r`.
pub open spec fn rect_bottom(r: Rect) -> int {
    r.y + r.height
}

/// `r` covers at least one pixel.
pub open spec fn rect_nonempty(r: Rect) -> bool {
    r.width > 0 && r.height > 0
}

/// `a` and `b` cover at least one pixel in common.
pub open spec fn rect_overlaps(a: Rect, b: Rect) -> bool {
    &&& rect_nonempty(a)
    &&& rect_nonempty(b)
    &&& a.x < rect_right(b)
    &&& b.x < rect_right(a)
    &&& a.y < rect_bottom(b)
    &&& b.y < rect_bottom(a)
}

/// Every pixel covered by `inner` is covered by `outer`, stated over the
/// rectangle bounds (so a degenerate `inner` must still sit inside `outer`'s
/// coordinate span).
pub open spec fn rect_contains(outer: Rect, inner: Rect) -> bool {
    &&& outer.x <= inner.x
    &&& rect_right(inner) <= rect_right(outer)
    &&& outer.y <= inner.y
    &&& rect_bottom(inner) <= rect_bottom(outer)
}

/// `r` lies within a surface of extent `width` x `height` anchored at the
/// origin.
pub open spec fn rect_in_surface(r: Rect, width: u32, height: u32) -> bool {
    rect_right(r) <= width && rect_bottom(r) <= height
}

/// `r` is wide and tall enough to hold a `width` x `height` tile.
pub open spec fn rect_fits(r: Rect, width: u32, height: u32) -> bool {
    r.width >= width && r.height >= height
}

impl Rect {
    pub fn new(x: u32, y: u32, width: u32, height: u32) -> (r: Rect)
        ensures
            r == (Rect { x, y, width, height }),
    {
        Rect { x, y, width, height }
    }

    /// Whether `self` contains all of `other`.
    pub fn contains_rect(&self, other: &Rect) -> (r: bool)
        ensures
            r == rect_contains(*self, *other),
    {
        self.x <= other.x && (other.x as u64) + (other.width as u64) <= (self.x as u64)
            + (self.width as u64) && self.y <= other.y && (other.y as u64) + (other.height as u64)
            <= (self.y as u64) + (self.height as u64)
    }

    /// Whether `self` and `other` cover a common pixel.
    pub fn has_intersection(&self, other: &Rect) -> (r: bool)
        ensures
            r == rect_overlaps(*self, *other),
    {
        self.width > 0 && self.height > 0 && other.width > 0 && other.height > 0
            && (self.x as u64) < (other.x as u64) + (other.width as u64) && (other.x as u64) < (
        self.x as u64) + (self.width as u64) && (self.y as u64) < (other.y as u64) + (
        other.height as u64) && (other.y as u64) < (self.y as u64) + (self.height as u64)
    }
}

/// `r` covers the pixel at `(px, py)`.
pub open spec fn covers(r: Rect, px: int, py: int) -> bool {
    r.x <= px && px < rect_right(r) && r.y <= py && py < rect_bottom(r)
}

/// Some rectangle of the collection covers the pixel at `(px, py)`.
pub open spec fn seq_covers(s: Seq<Rect>, px: int, py: int) -> bool {
    exists|i: int| 0 <= i < s.len() && covers(#[trigger] s[i], px, py)
}

/// The arithmetic overlap test agrees with the pixel model: two rectangles
/// overlap exactly when some pixel is covered by both.
pub proof fn lemma_overlaps_iff_common_pixel(a: Rect, b: Rect)
    ensures
        rect_overlaps(a, b) <==> exists|px: int, py: int|
            covers(a, px, py) && #[trigger] covers(b, px, py),
{
    if rect_overlaps(a, b) {
        let px: int = if a.x >= b.x {
            a.x as int
        } else {
            b.x as int
        };
        let py: int = if a.y >= b.y {
            a.y as int
        } else {
            b.y as int
        };
        assert(covers(a, px, py) && covers(b, px, py));
    }
}

/// Whatever a contained rectangle covers, the containing one covers.
pub proof fn lemma_contains_covers(outer: Rect, inner: Rect, px: int, py: int)
    requires
        rect_contains(outer, inner),
        covers(inner, px, py),
    ensures
        covers(outer, px, py),
{
}

/// A rectangle contained in another cannot overlap anything that the outer
/// rectangle does not overlap.
pub proof fn lemma_contained_overlap(outer: Rect, inner: Rect, other: Rect)
    requires
        rect_contains(outer, inner),
        rect_overlaps(inner, other),
    ensures
        rect_overlaps(outer, other),
{
}

/// Containment is transitive.
pub proof fn lemma_contains_trans(a: Rect, b: Rect, c: Rect)
    requires
        rect_contains(a, b),
        rect_contains(b, c),
    ensures
        rect_contains(a, c),
{
}

/// A rectangle contained in one that lies within the surface lies within the
/// surface as well.
pub proof fn lemma_contained_in_surface(outer: Rect, inner: Rect, width: u32, height: u32)
    requires
        rect_contains(outer, inner),
        rect_in_surface(outer, width, height),
    ensures
        rect_in_surface(inner, width, height),
{
}

} // verus!
