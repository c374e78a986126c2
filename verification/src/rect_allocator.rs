//! The rectangle-packing atlas allocator: free-space bookkeeping for a
//! fixed-size surface and an append-only mapping from tile keys to committed
//! placement rectangles.

use vstd::prelude::*;

use crate::geometry::{covers, rect_contains, rect_fits, rect_in_surface, rect_overlaps, seq_covers, Rect};

verus! {

/// An RGBA color, one byte per channel.
#[derive(Clone, Copy, Debug, PartialEq, Eq, Structural)]
pub struct Color {
    pub r: u8,
    pub g: u8,
    pub b: u8,
    pub a: u8,
}

/// Identifies a cacheable tile: the rasterization configuration of a glyph
/// (glyph index, pixel size as its bit pattern, a hash of the font) together
/// with the color that is baked into the cached bitmap. Two requests with
/// equal keys resolve to the same placement.
#[derive(Clone, Copy, Debug, PartialEq, Eq, Structural)]
pub struct TileKey {
    pub glyph_index: u16,
    pub px_bits: u32,
    pub font_hash: u64,
    pub color: Color,
}

/// A committed, immutable mapping from a tile key to its placement rectangle.
#[derive(Clone, Copy, Debug, PartialEq, Eq, Structural)]
pub struct Reservation {
    pub key: TileKey,
    pub rect: Rect,
}

/// The outcome of asking the allocator for a tile's place in the surface.
#[derive(Clone, Copy, Debug, PartialEq, Eq, Structural)]
pub enum CacheReservation {
    /// The key already had a reservation; its rectangle is returned unchanged.
    AlreadyRasterized(Rect),
    /// Free space of exactly the requested extent was found and committed;
    /// the caller must populate pixel data at this rectangle.
    EmptySpace(Rect),
    /// No free rectangle is large enough. Nothing was mutated; later,
    /// possibly smaller, requests may still succeed.
    OutOfSpace,
}

/// Owns the free-space bookkeeping for a fixed-size surface: an unordered
/// collection of free rectangles (which may overlap each other) and the
/// committed reservations. Space is only ever consumed, never reclaimed.
pub struct RectAllocator {
    width: u32,
    height: u32,
    empty_rects: Vec<Rect>,
    reserved_rects: Vec<Reservation>,
}

/// No rectangle of the collection is wide and tall enough for a
/// `width` x `height` tile.
pub open spec fn no_fit(frees: Seq<Rect>, width: u32, height: u32) -> bool {
    forall|i: int| 0 <= i < frees.len() ==> !rect_fits(#[trigger] frees[i], width, height)
}

/// Some rectangle of `src` contains `x`.
pub open spec fn contained_in_some(src: Seq<Rect>, x: Rect) -> bool {
    exists|i: int| 0 <= i < src.len() && rect_contains(#[trigger] src[i], x)
}

/// Every rectangle of `out` is contained in some rectangle of `src`: the area
/// covered by `out` is no more than the area covered by `src`.
pub open spec fn all_contained_in(out: Seq<Rect>, src: Seq<Rect>) -> bool {
    forall|j: int| 0 <= j < out.len() ==> contained_in_some(src, #[trigger] out[j])
}

/// No rectangle of the collection overlaps `r`.
pub open spec fn none_overlap(s: Seq<Rect>, r: Rect) -> bool {
    forall|i: int| 0 <= i < s.len() ==> !rect_overlaps(#[trigger] s[i], r)
}

/// Every rectangle of the collection lies within a `width` x `height`
/// surface.
pub open spec fn all_in_surface(s: Seq<Rect>, width: u32, height: u32) -> bool {
    forall|i: int| 0 <= i < s.len() ==> rect_in_surface(#[trigger] s[i], width, height)
}

/// Appending a rectangle that is contained in `src[i]`, avoids `placement`,
/// and lies in the surface preserves those three collection properties.
proof fn lemma_part_push(
    pre: Seq<Rect>,
    post: Seq<Rect>,
    src: Seq<Rect>,
    x: Rect,
    i: int,
    placement: Rect,
    sw: u32,
    sh: u32,
)
    requires
        post == pre.push(x),
        all_contained_in(pre, src),
        none_overlap(pre, placement),
        all_in_surface(pre, sw, sh),
        0 <= i < src.len(),
        rect_contains(src[i], x),
        !rect_overlaps(x, placement),
        rect_in_surface(x, sw, sh),
    ensures
        all_contained_in(post, src),
        none_overlap(post, placement),
        all_in_surface(post, sw, sh),
{
    assert forall|j: int| 0 <= j < post.len() implies contained_in_some(
        src,
        #[trigger] post[j],
    ) by {
        if j < pre.len() {
            assert(post[j] == pre[j]);
            assert(contained_in_some(src, pre[j]));
        } else {
            assert(post[j] == x);
            assert(rect_contains(src[i], post[j]));
        }
    }
}

impl RectAllocator {
    /// The fixed width of the managed surface.
    pub closed spec fn surface_width(self) -> u32 {
        self.width
    }

    /// The fixed height of the managed surface.
    pub closed spec fn surface_height(self) -> u32 {
        self.height
    }

    /// The current collection of free rectangles.
    pub closed spec fn frees(self) -> Seq<Rect> {
        self.empty_rects@
    }

    /// The committed reservations, in the order they were made.
    pub closed spec fn reservations(self) -> Seq<Reservation> {
        self.reserved_rects@
    }

    /// Whether `key` has a committed reservation.
    pub open spec fn has_key(self, key: TileKey) -> bool {
        exists|i: int|
            0 <= i < self.reservations().len() && (#[trigger] self.reservations()[i]).key == key
    }

    /// The slot of `key`'s reservation (meaningful only when `has_key`).
    pub open spec fn key_slot(self, key: TileKey) -> int {
        choose|i: int|
            0 <= i < self.reservations().len() && (#[trigger] self.reservations()[i]).key == key
    }

    /// The placement rectangle committed for `key` (meaningful only when
    /// `has_key`).
    pub open spec fn rect_of(self, key: TileKey) -> Rect {
        self.reservations()[self.key_slot(key)].rect
    }

    /// The allocator's invariant: every free rectangle and every committed
    /// placement lies within the surface; keys are reserved at most once;
    /// no free rectangle overlaps any committed placement (free space is
    /// actually unoccupied); and committed placements are pairwise disjoint.
    pub open spec fn wf(self) -> bool {
        &&& forall|i: int|
            0 <= i < self.frees().len() ==> rect_in_surface(
                #[trigger] self.frees()[i],
                self.surface_width(),
                self.surface_height(),
            )
        &&& forall|i: int|
            0 <= i < self.reservations().len() ==> rect_in_surface(
                (#[trigger] self.reservations()[i]).rect,
                self.surface_width(),
                self.surface_height(),
            )
        &&& forall|i: int, j: int|
            0 <= i < self.reservations().len() && 0 <= j < self.reservations().len() && i != j
                ==> (#[trigger] self.reservations()[i]).key != (
            #[trigger] self.reservations()[j]).key
        &&& forall|i: int, j: int|
            0 <= i < self.frees().len() && 0 <= j < self.reservations().len() ==> !rect_overlaps(
                #[trigger] self.frees()[i],
                (#[trigger] self.reservations()[j]).rect,
            )
        &&& forall|i: int, j: int|
            0 <= i < self.reservations().len() && 0 <= j < self.reservations().len() && i != j
                ==> !rect_overlaps(
                (#[trigger] self.reservations()[i]).rect,
                (#[trigger] self.reservations()[j]).rect,
            )
    }

    /// Creates an allocator whose free space is the whole surface and whose
    /// reservation set is empty.
    pub fn new(width: u32, height: u32) -> (r: RectAllocator)
        ensures
            r.wf(),
            r.surface_width() == width,
            r.surface_height() == height,
            r.frees() =~= seq![(Rect { x: 0u32, y: 0u32, width, height })],
            r.reservations() =~= Seq::<Reservation>::empty(),
    {
        let mut empty_rects: Vec<Rect> = Vec::new();
        empty_rects.push(Rect { x: 0, y: 0, width, height });
        RectAllocator { width, height, empty_rects, reserved_rects: Vec::new() }
    }

    /// The placement-search step: finds the first free rectangle the request
    /// fits into, trims it to the requested extent, and rebuilds the free
    /// list so that no free rectangle intersects the chosen placement (prune
    /// contained rectangles, split intersecting ones into surrounding
    /// slivers, re-sort by area ascending, drop rectangles nested inside
    /// others, so that afterwards no free rectangle is contained in another).
    fn get_empty_slot(&mut self, width: u32, height: u32) -> (r: Option<Rect>)
        requires
            all_in_surface(
                old(self).frees(),
                old(self).surface_width(),
                old(self).surface_height(),
            ),
        ensures
            final(self).surface_width() == old(self).surface_width(),
            final(self).surface_height() == old(self).surface_height(),
            final(self).reservations() == old(self).reservations(),
            match r {
                Option::None => {
                    &&& *final(self) == *old(self)
                    &&& no_fit(old(self).frees(), width, height)
                },
                Option::Some(rect) => {
                    &&& is_first_fit(old(self).frees(), rect, width, height)
                    &&& rect.width == width
                    &&& rect.height == height
                    &&& rect_in_surface(rect, old(self).surface_width(), old(self).surface_height())
                    &&& contained_in_some(old(self).frees(), rect)
                    &&& all_contained_in(final(self).frees(), old(self).frees())
                    &&& none_overlap(final(self).frees(), rect)
                    &&& all_in_surface(
                        final(self).frees(),
                        old(self).surface_width(),
                        old(self).surface_height(),
                    )
                    &&& area_sorted(final(self).frees())
                    &&& forall|a: int, b: int|
                        #![trigger final(self).frees()[a], final(self).frees()[b]]
                        0 <= a < final(self).frees().len() && 0 <= b < final(self).frees().len()
                            && a != b ==> !rect_contains(
                            final(self).frees()[b],
                            final(self).frees()[a],
                        )
                    &&& forall|px: int, py: int|
                        #![trigger seq_covers(old(self).frees(), px, py)]
                        seq_covers(old(self).frees(), px, py) && !covers(rect, px, py)
                            ==> seq_covers(final(self).frees(), px, py)
                },
            },
    {
        let fit = find_first_fit(&self.empty_rects, width, height);
        match fit {
            Option::None => Option::None,
            Option::Some(fi) => {
                let base = self.empty_rects[fi];
                let new_rect = Rect { x: base.x, y: base.y, width, height };
                proof {
                    assert(first_fit_at(self.frees(), fi as int, new_rect, width, height));
                    assert(rect_contains(self.frees()[fi as int], new_rect));
                    assert(rect_in_surface(self.frees()[fi as int], self.width, self.height));
                    assert(rect_in_surface(new_rect, self.width, self.height));
                }
                let pruned = prune_contained(&self.empty_rects, new_rect);
                proof {
                    lemma_elements_contained(pruned@, self.frees());
                    lemma_contained_in_surface_seq(pruned@, self.frees(), self.width, self.height);
                }
                let split = split_around(&pruned, new_rect, self.width, self.height);
                let sorted = sort_rects_by_area(&split);
                proof {
                    lemma_same_multiset_same_elements(split@, sorted@);
                    lemma_elements_contained(sorted@, split@);
                    lemma_contained_none_overlap(sorted@, split@, new_rect);
                    lemma_contained_in_surface_seq(sorted@, split@, self.width, self.height);
                }
                let cleaned = drop_nested(&sorted);
                proof {
                    lemma_elements_contained(cleaned@, sorted@);
                    lemma_contained_none_overlap(cleaned@, sorted@, new_rect);
                    lemma_contained_in_surface_seq(cleaned@, sorted@, self.width, self.height);
                    lemma_contained_trans_seq(cleaned@, sorted@, split@);
                    lemma_contained_trans_seq(split@, pruned@, self.frees());
                    lemma_contained_trans_seq(cleaned@, split@, self.frees());
                }
                let ghost frees_before = self.frees();
                self.empty_rects = cleaned;
                proof {
                    assert(self.frees() == cleaned@);
                    assert(is_first_fit(frees_before, new_rect, width, height));
                    lemma_same_multiset_same_elements(sorted@, split@);
                    lemma_elements_keep_coverage(split@, sorted@);
                    assert forall|px: int, py: int|
                        #![trigger seq_covers(frees_before, px, py)]
                        seq_covers(frees_before, px, py) && !covers(new_rect, px, py)
                            implies seq_covers(self.frees(), px, py) by {
                        assert(seq_covers(pruned@, px, py));
                        assert(seq_covers(split@, px, py));
                        assert(seq_covers(sorted@, px, py));
                        assert(seq_covers(cleaned@, px, py));
                    }
                }
                Option::Some(new_rect)
            },
        }
    }

    /// Answers where in the surface the tile identified by `key` lives. If
    /// `key` was reserved before, its recorded placement is returned and
    /// nothing is mutated (a cache hit is idempotent). Otherwise, if the
    /// first-fit search finds room for a `width` x `height` tile, a new
    /// reservation of exactly that extent is committed and returned; if it
    /// finds none, nothing is mutated and the failure is request-scoped. A
    /// request wider or taller than the surface never succeeds.
    pub fn get_rect_in_texture(&mut self, key: TileKey, width: u32, height: u32) -> (r:
        CacheReservation)
        requires
            old(self).wf(),
        ensures
            final(self).wf(),
            final(self).surface_width() == old(self).surface_width(),
            final(self).surface_height() == old(self).surface_height(),
            match r {
                CacheReservation::AlreadyRasterized(rect) => {
                    &&& old(self).has_key(key)
                    &&& rect == old(self).rect_of(key)
                    &&& *final(self) == *old(self)
                },
                CacheReservation::EmptySpace(rect) => {
                    &&& !old(self).has_key(key)
                    &&& rect.width == width
                    &&& rect.height == height
                    &&& rect_in_surface(rect, old(self).surface_width(), old(self).surface_height())
                    &&& is_first_fit(old(self).frees(), rect, width, height)
                    &&& final(self).reservations() == old(self).reservations().push(
                        (Reservation { key, rect }),
                    )
                    &&& final(self).has_key(key)
                    &&& final(self).rect_of(key) == rect
                    &&& all_contained_in(final(self).frees(), old(self).frees())
                    &&& none_overlap(final(self).frees(), rect)
                    &&& area_sorted(final(self).frees())
                    &&& forall|a: int, b: int|
                        #![trigger final(self).frees()[a], final(self).frees()[b]]
                        0 <= a < final(self).frees().len() && 0 <= b < final(self).frees().len()
                            && a != b ==> !rect_contains(
                            final(self).frees()[b],
                            final(self).frees()[a],
                        )
                    &&& forall|px: int, py: int|
                        #![trigger seq_covers(old(self).frees(), px, py)]
                        seq_covers(old(self).frees(), px, py) && !covers(rect, px, py)
                            ==> seq_covers(final(self).frees(), px, py)
                },
                CacheReservation::OutOfSpace => {
                    &&& !old(self).has_key(key)
                    &&& no_fit(old(self).frees(), width, height)
                    &&& *final(self) == *old(self)
                },
            },
            !old(self).has_key(key) && (width > old(self).surface_width() || height > old(
                self,
            ).surface_height()) ==> (r matches CacheReservation::OutOfSpace),
    {
        let ghost self0 = *self;
        let n = self.reserved_rects.len();
        let mut i: usize = 0;
        while i < n
            invariant
                *self == self0,
                self0 == *old(self),
                self0.wf(),
                n == self.reserved_rects@.len(),
                0 <= i <= n,
                forall|j: int| 0 <= j < i ==> (#[trigger] self.reservations()[j]).key != key,
            decreases n - i,
        {
            if self.reserved_rects[i].key == key {
                let rect = self.reserved_rects[i].rect;
                proof {
                    lemma_rect_of_at(*self, key, i as int);
                }
                return CacheReservation::AlreadyRasterized(rect);
            }
            i = i + 1;
        }
        proof {
            assert forall|j: int|
                0 <= j < self.reservations().len() implies (#[trigger] self.reservations()[j]).key
                != key by {}
            assert(!self.has_key(key));
            assert(all_in_surface(self.frees(), self.surface_width(), self.surface_height()));
        }
        match self.get_empty_slot(width, height) {
            Option::Some(new_rect) => {
                let ghost mid = *self;
                self.reserved_rects.push(Reservation { key, rect: new_rect });
                proof {
                    let fin = *self;
                    let n0 = self0.reservations().len() as int;
                    assert(fin.reservations() == self0.reservations().push(
                        (Reservation { key, rect: new_rect }),
                    ));
                    assert(fin.frees() == mid.frees());
                    assert(forall|j: int|
                        0 <= j < n0 ==> #[trigger] fin.reservations()[j]
                            == self0.reservations()[j]);
                    assert(fin.reservations()[n0] == (Reservation { key, rect: new_rect }));
                    lemma_first_fit_contained(self0.frees(), new_rect, width, height);
                    let c0 = choose|c: int|
                        0 <= c < self0.frees().len() && rect_contains(
                            #[trigger] self0.frees()[c],
                            new_rect,
                        );
                    assert(rect_in_surface(self0.frees()[c0], self0.width, self0.height));
                    crate::geometry::lemma_contained_in_surface(
                        self0.frees()[c0],
                        new_rect,
                        self0.width,
                        self0.height,
                    );
                    // The new placement cannot overlap any older reservation:
                    // it sits inside a free rectangle, which never does.
                    assert forall|j: int|
                        0 <= j < n0 implies !rect_overlaps(
                        new_rect,
                        (#[trigger] self0.reservations()[j]).rect,
                    ) by {
                        if rect_overlaps(new_rect, self0.reservations()[j].rect) {
                            crate::geometry::lemma_contained_overlap(
                                self0.frees()[c0],
                                new_rect,
                                self0.reservations()[j].rect,
                            );
                        }
                    }
                    // Remaining free rectangles avoid every reservation, old
                    // and new.
                    assert forall|a: int, j: int|
                        0 <= a < fin.frees().len() && 0 <= j < fin.reservations().len()
                            implies !rect_overlaps(
                        #[trigger] fin.frees()[a],
                        (#[trigger] fin.reservations()[j]).rect,
                    ) by {
                        assert(contained_in_some(self0.frees(), fin.frees()[a]));
                        let ca = choose|c: int|
                            0 <= c < self0.frees().len() && rect_contains(
                                #[trigger] self0.frees()[c],
                                fin.frees()[a],
                            );
                        if j < n0 {
                            if rect_overlaps(fin.frees()[a], fin.reservations()[j].rect) {
                                assert(fin.reservations()[j] == self0.reservations()[j]);
                                crate::geometry::lemma_contained_overlap(
                                    self0.frees()[ca],
                                    fin.frees()[a],
                                    self0.reservations()[j].rect,
                                );
                            }
                        } else {
                            assert(fin.reservations()[j].rect == new_rect);
                            assert(!rect_overlaps(fin.frees()[a], new_rect));
                        }
                    }
                    // Free rectangles stay within the surface.
                    assert forall|a: int|
                        0 <= a < fin.frees().len() implies rect_in_surface(
                        #[trigger] fin.frees()[a],
                        fin.surface_width(),
                        fin.surface_height(),
                    ) by {}
                    // Keys stay unique: the new key was not reserved before.
                    assert forall|a: int, b: int|
                        0 <= a < fin.reservations().len() && 0 <= b < fin.reservations().len() && a
                            != b implies (#[trigger] fin.reservations()[a]).key != (
                        #[trigger] fin.reservations()[b]).key by {
                        if a == n0 && 0 <= b < n0 {
                            if fin.reservations()[a].key == fin.reservations()[b].key {
                                assert(self0.reservations()[b].key == key);
                                assert(self0.has_key(key));
                            }
                        } else if b == n0 && 0 <= a < n0 {
                            if fin.reservations()[a].key == fin.reservations()[b].key {
                                assert(self0.reservations()[a].key == key);
                                assert(self0.has_key(key));
                            }
                        }
                    }
                    // Reservations stay pairwise disjoint.
                    assert forall|a: int, b: int|
                        0 <= a < fin.reservations().len() && 0 <= b < fin.reservations().len() && a
                            != b implies !rect_overlaps(
                        (#[trigger] fin.reservations()[a]).rect,
                        (#[trigger] fin.reservations()[b]).rect,
                    ) by {
                        if a == n0 && 0 <= b < n0 {
                            assert(!rect_overlaps(new_rect, self0.reservations()[b].rect));
                        } else if b == n0 && 0 <= a < n0 {
                            assert(!rect_overlaps(new_rect, self0.reservations()[a].rect));
                        }
                    }
                    assert(fin.wf());
                    lemma_rect_of_at(fin, key, n0);
                    // An oversized request never reaches this arm: the chosen
                    // free rectangle fits it and lies within the surface.
                    if width > self0.surface_width() || height > self0.surface_height() {
                        let fi = choose|fi: int|
                            #[trigger] first_fit_at(self0.frees(), fi, new_rect, width, height);
                        assert(rect_in_surface(
                            self0.frees()[fi],
                            self0.surface_width(),
                            self0.surface_height(),
                        ));
                        assert(false);
                    }
                }
                CacheReservation::EmptySpace(new_rect)
            },
            Option::None => CacheReservation::OutOfSpace,
        }
    }
}

/// Returns the index of the first rectangle that is wide and tall enough for
/// a `width` x `height` tile, or `None` if there is none.
fn find_first_fit(rects: &Vec<Rect>, width: u32, height: u32) -> (r: Option<usize>)
    ensures
        match r {
            Some(i) => 0 <= i < rects@.len() && rect_fits(rects@[i as int], width, height)
                && (forall|j: int| 0 <= j < i ==> !rect_fits(#[trigger] rects@[j], width, height)),
            None => no_fit(rects@, width, height),
        },
{
    let mut i: usize = 0;
    while i < rects.len()
        invariant
            0 <= i <= rects@.len(),
            forall|j: int| 0 <= j < i ==> !rect_fits(#[trigger] rects@[j], width, height),
        decreases rects@.len() - i,
    {
        if rects[i].width >= width && rects[i].height >= height {
            return Some(i);
        }
        i = i + 1;
    }
    None
}

/// Returns `rects` with every rectangle that is fully contained in
/// `placement` removed.
fn prune_contained(rects: &Vec<Rect>, placement: Rect) -> (out: Vec<Rect>)
    ensures
        forall|j: int| 0 <= j < out@.len() ==> rects@.contains(#[trigger] out@[j]),
        forall|j: int| 0 <= j < out@.len() ==> !rect_contains(placement, #[trigger] out@[j]),
        forall|i: int|
            0 <= i < rects@.len() && !rect_contains(placement, #[trigger] rects@[i])
                ==> out@.contains(rects@[i]),
        forall|px: int, py: int|
            #![trigger seq_covers(rects@, px, py)]
            seq_covers(rects@, px, py) && !covers(placement, px, py) ==> seq_covers(
                out@,
                px,
                py,
            ),
{
    let mut out: Vec<Rect> = Vec::new();
    let mut i: usize = 0;
    while i < rects.len()
        invariant
            0 <= i <= rects@.len(),
            forall|j: int| 0 <= j < out@.len() ==> rects@.contains(#[trigger] out@[j]),
            forall|j: int| 0 <= j < out@.len() ==> !rect_contains(placement, #[trigger] out@[j]),
            forall|i2: int|
                0 <= i2 < i && !rect_contains(placement, #[trigger] rects@[i2]) ==> out@.contains(
                    rects@[i2],
                ),
        decreases rects@.len() - i,
    {
        let ghost pre = out@;
        let r = rects[i];
        if !placement.contains_rect(&r) {
            out.push(r);
            proof {
                assert(out@ == pre.push(r));
                assert(out@[pre.len() as int] == rects@[i as int]);
                assert(forall|j: int| 0 <= j < pre.len() ==> #[trigger] out@[j] == pre[j]);
                assert forall|i2: int|
                    0 <= i2 < i + 1 && !rect_contains(placement, #[trigger] rects@[i2])
                        implies out@.contains(rects@[i2]) by {
                    if i2 == i as int {
                        assert(out@[pre.len() as int] == rects@[i2]);
                    } else {
                        let j0 = choose|j: int|
                            0 <= j < pre.len() && #[trigger] pre[j] == rects@[i2];
                        assert(out@[j0] == rects@[i2]);
                    }
                }
            }
        }
        i = i + 1;
    }
    proof {
        assert forall|px: int, py: int|
            #![trigger seq_covers(rects@, px, py)]
            seq_covers(rects@, px, py) && !covers(placement, px, py) implies seq_covers(
            out@,
            px,
            py,
        ) by {
            let c0 = choose|c: int| 0 <= c < rects@.len() && covers(#[trigger] rects@[c], px, py);
            if rect_contains(placement, rects@[c0]) {
                crate::geometry::lemma_contains_covers(placement, rects@[c0], px, py);
            } else {
                assert(out@.contains(rects@[c0]));
                let a0 = choose|a: int| 0 <= a < out@.len() && #[trigger] out@[a] == rects@[c0];
                assert(covers(out@[a0], px, py));
            }
        }
    }
    out
}

/// Splits one rectangle that intersects `placement` into its up-to-four
/// parts strictly left of, right of, above and below `placement` (the
/// classic guillotine split into surrounding slivers). Each part is
/// contained in `r` and avoids `placement`, and together the parts cover
/// every pixel of `r` that `placement` does not cover.
fn split_one(r: Rect, placement: Rect, sw: u32, sh: u32) -> (parts: Vec<Rect>)
    requires
        rect_in_surface(r, sw, sh),
        rect_in_surface(placement, sw, sh),
        rect_overlaps(r, placement),
    ensures
        forall|j: int|
            0 <= j < parts@.len() ==> rect_contains(r, #[trigger] parts@[j]) && !rect_overlaps(
                parts@[j],
                placement,
            ) && rect_in_surface(parts@[j], sw, sh),
        forall|px: int, py: int|
            #![trigger covers(r, px, py), covers(placement, px, py)]
            covers(r, px, py) && !covers(placement, px, py) ==> seq_covers(parts@, px, py),
{
    let mut parts: Vec<Rect> = Vec::new();
    let ghost mut left_part: Option<Rect> = Option::None;
    let ghost mut right_part: Option<Rect> = Option::None;
    let ghost mut top_part: Option<Rect> = Option::None;
    let ghost mut bottom_part: Option<Rect> = Option::None;
    if r.x < placement.x {
        let part = Rect { x: r.x, y: r.y, width: placement.x - r.x, height: r.height };
        parts.push(part);
        proof {
            left_part = Option::Some(part);
        }
    }
    if r.x + r.width > placement.x + placement.width {
        let part = Rect {
            x: placement.x + placement.width,
            y: r.y,
            width: (r.x + r.width) - (placement.x + placement.width),
            height: r.height,
        };
        parts.push(part);
        proof {
            right_part = Option::Some(part);
        }
    }
    if r.y < placement.y {
        let part = Rect { x: r.x, y: r.y, width: r.width, height: placement.y - r.y };
        parts.push(part);
        proof {
            top_part = Option::Some(part);
        }
    }
    if r.y + r.height > placement.y + placement.height {
        let part = Rect {
            x: r.x,
            y: placement.y + placement.height,
            width: r.width,
            height: (r.y + r.height) - (placement.y + placement.height),
        };
        parts.push(part);
        proof {
            bottom_part = Option::Some(part);
        }
    }
    proof {
        let ln: int = if left_part is Some {
            1
        } else {
            0
        };
        let rn: int = ln + if right_part is Some {
            1int
        } else {
            0int
        };
        let tn: int = rn + if top_part is Some {
            1int
        } else {
            0int
        };
        let bn: int = tn + if bottom_part is Some {
            1int
        } else {
            0int
        };
        assert(parts@.len() == bn);
        assert(left_part is Some ==> parts@[0] == left_part->0);
        assert(right_part is Some ==> parts@[ln] == right_part->0);
        assert(top_part is Some ==> parts@[rn] == top_part->0);
        assert(bottom_part is Some ==> parts@[tn] == bottom_part->0);
        assert forall|j: int|
            0 <= j < parts@.len() implies rect_contains(r, #[trigger] parts@[j]) && !rect_overlaps(
            parts@[j],
            placement,
        ) && rect_in_surface(parts@[j], sw, sh) by {
            if left_part is Some && j == 0 {
                assert(parts@[j] == left_part->0);
            } else if right_part is Some && j == ln {
                assert(parts@[j] == right_part->0);
            } else if top_part is Some && j == rn {
                assert(parts@[j] == top_part->0);
            } else {
                assert(parts@[j] == bottom_part->0);
            }
        }
        assert forall|px: int, py: int|
            #![trigger covers(r, px, py), covers(placement, px, py)]
            covers(r, px, py) && !covers(placement, px, py) implies seq_covers(
            parts@,
            px,
            py,
        ) by {
            if px < placement.x {
                assert(covers(parts@[0], px, py));
            } else if px >= placement.x + placement.width {
                assert(covers(parts@[ln], px, py));
            } else if py < placement.y {
                assert(covers(parts@[rn], px, py));
            } else {
                assert(py >= placement.y + placement.height);
                assert(covers(parts@[tn], px, py));
            }
        }
    }
    parts
}

/// Replaces every rectangle that intersects `placement` by its guillotine
/// slivers and keeps every other rectangle, so that no rectangle of the
/// result intersects `placement` while every pixel that was covered before
/// and lies outside `placement` is still covered.
fn split_around(rects: &Vec<Rect>, placement: Rect, sw: u32, sh: u32) -> (out: Vec<Rect>)
    requires
        all_in_surface(rects@, sw, sh),
        rect_in_surface(placement, sw, sh),
    ensures
        all_contained_in(out@, rects@),
        none_overlap(out@, placement),
        all_in_surface(out@, sw, sh),
        forall|px: int, py: int|
            #![trigger seq_covers(rects@, px, py)]
            seq_covers(rects@, px, py) && !covers(placement, px, py) ==> seq_covers(
                out@,
                px,
                py,
            ),
{
    let mut out: Vec<Rect> = Vec::new();
    let mut i: usize = 0;
    while i < rects.len()
        invariant
            0 <= i <= rects@.len(),
            all_in_surface(rects@, sw, sh),
            rect_in_surface(placement, sw, sh),
            all_contained_in(out@, rects@),
            none_overlap(out@, placement),
            all_in_surface(out@, sw, sh),
            forall|px: int, py: int|
                #![trigger seq_covers(rects@.take(i as int), px, py)]
                seq_covers(rects@.take(i as int), px, py) && !covers(placement, px, py)
                    ==> seq_covers(out@, px, py),
        decreases rects@.len() - i,
    {
        let ghost head = out@;
        let ghost mut parts_for_r: Seq<Rect> = Seq::empty();
        let r = rects[i];
        proof {
            assert(rect_in_surface(rects@[i as int], sw, sh));
        }
        if !r.has_intersection(&placement) {
            out.push(r);
            proof {
                lemma_part_push(head, out@, rects@, r, i as int, placement, sw, sh);
            }
        } else {
            let mut parts = split_one(r, placement, sw, sh);
            proof {
                parts_for_r = parts@;
            }
            out.append(&mut parts);
            proof {
                let parts_view = parts_for_r;
                assert(out@ == head + parts_view);
                assert(forall|j: int| 0 <= j < head.len() ==> #[trigger] out@[j] == head[j]);
                assert(forall|k: int|
                    0 <= k < parts_view.len() ==> #[trigger] out@[head.len() + k]
                        == parts_view[k]);
                assert forall|j: int|
                    0 <= j < out@.len() implies contained_in_some(
                    rects@,
                    #[trigger] out@[j],
                ) by {
                    if j < head.len() {
                        assert(contained_in_some(rects@, head[j]));
                    } else {
                        assert(out@[j] == parts_view[j - head.len()]);
                        assert(rect_contains(r, parts_view[j - head.len()]));
                        assert(rect_contains(rects@[i as int], out@[j]));
                    }
                }
                assert forall|j: int|
                    0 <= j < out@.len() implies !rect_overlaps(
                    #[trigger] out@[j],
                    placement,
                ) && rect_in_surface(out@[j], sw, sh) by {
                    if j >= head.len() {
                        assert(out@[j] == parts_view[j - head.len()]);
                    }
                }
            }
        }
        proof {
            assert(forall|j: int| 0 <= j < head.len() ==> #[trigger] out@[j] == head[j]);
            assert(rects@.take(i + 1).drop_last() =~= rects@.take(i as int));
            assert forall|px: int, py: int|
                #![trigger seq_covers(rects@.take(i + 1), px, py)]
                seq_covers(rects@.take(i + 1), px, py) && !covers(placement, px, py)
                    implies seq_covers(out@, px, py) by {
                let i2 = choose|i3: int|
                    0 <= i3 < rects@.take(i + 1).len() && covers(
                        #[trigger] rects@.take(i + 1)[i3],
                        px,
                        py,
                    );
                if i2 < i as int {
                    assert(covers(rects@.take(i as int)[i2], px, py));
                    assert(seq_covers(rects@.take(i as int), px, py));
                    let j0 = choose|j: int| 0 <= j < head.len() && covers(#[trigger] head[j], px, py);
                    assert(covers(out@[j0], px, py));
                } else {
                    assert(covers(r, px, py));
                    if !rect_overlaps(r, placement) {
                        assert(covers(out@[head.len() as int], px, py));
                    } else {
                        assert(seq_covers(parts_for_r, px, py));
                        let k0 = choose|k: int|
                            0 <= k < parts_for_r.len() && covers(#[trigger] parts_for_r[k], px, py);
                        assert(covers(out@[head.len() + k0], px, py));
                    }
                }
            }
        }
        i = i + 1;
    }
    proof {
        assert(rects@.take(i as int) =~= rects@);
    }
    out
}

/// The area of a rectangle in pixels.
pub open spec fn rect_area(r: Rect) -> int {
    r.width * r.height
}

/// The collection is ordered by area, smallest first.
pub open spec fn area_sorted(s: Seq<Rect>) -> bool {
    forall|a: int, b: int|
        #![trigger s[a], s[b]]
        0 <= a < b < s.len() ==> rect_area(s[a]) <= rect_area(s[b])
}

/// Computes a rectangle's area without overflowing.
fn rect_area_u64(r: &Rect) -> (a: u64)
    ensures
        a == rect_area(*r),
{
    let w = r.width as u64;
    let h = r.height as u64;
    proof {
        assert(w * h <= 0xffff_ffff_ffff_ffff) by (nonlinear_arith)
            requires
                w <= 0xffff_ffff,
                h <= 0xffff_ffff,
        ;
    }
    w * h
}

/// Two sequences with equal multisets hold the same elements.
proof fn lemma_same_multiset_same_elements(a: Seq<Rect>, b: Seq<Rect>)
    requires
        a.to_multiset() == b.to_multiset(),
    ensures
        forall|j: int| 0 <= j < b.len() ==> a.contains(#[trigger] b[j]),
{
    assert forall|j: int| 0 <= j < b.len() implies a.contains(#[trigger] b[j]) by {
        assert(b.contains(b[j]));
        vstd::seq_lib::to_multiset_contains(b, b[j]);
        vstd::seq_lib::to_multiset_contains(a, b[j]);
    }
}

/// Returns `rects` reordered by area, ascending (smallest first), so that a
/// first-fit scan prefers tight-fitting small free areas over large ones.
fn sort_rects_by_area(rects: &Vec<Rect>) -> (out: Vec<Rect>)
    ensures
        out@.to_multiset() == rects@.to_multiset(),
        area_sorted(out@),
{
    let mut out: Vec<Rect> = Vec::new();
    let mut i: usize = 0;
    proof {
        assert(rects@.take(0) =~= Seq::<Rect>::empty());
        assert(Seq::<Rect>::empty().to_multiset() =~= out@.to_multiset());
    }
    while i < rects.len()
        invariant
            0 <= i <= rects@.len(),
            out@.len() == i,
            out@.to_multiset() == rects@.take(i as int).to_multiset(),
            area_sorted(out@),
        decreases rects@.len() - i,
    {
        let r = rects[i];
        let a = rect_area_u64(&r);
        let mut pos: usize = 0;
        while pos < out.len() && rect_area_u64(&out[pos]) <= a
            invariant
                0 <= pos <= out@.len(),
                forall|k: int| 0 <= k < pos ==> rect_area(#[trigger] out@[k]) <= rect_area(r),
                area_sorted(out@),
                a == rect_area(r),
            decreases out@.len() - pos,
        {
            pos = pos + 1;
        }
        let ghost pre = out@;
        out.insert(pos, r);
        proof {
            assert(out@ == pre.insert(pos as int, r));
            vstd::seq_lib::to_multiset_insert(pre, pos as int, r);
            vstd::seq_lib::to_multiset_build(rects@.take(i as int), r);
            assert(rects@.take(i as int).push(r) =~= rects@.take(i + 1));
            assert forall|u: int, v: int|
                #![trigger out@[u], out@[v]]
                0 <= u < v < out@.len() implies rect_area(out@[u]) <= rect_area(out@[v]) by {
                assert(forall|k: int| 0 <= k < pos ==> #[trigger] out@[k] == pre[k]);
                assert(out@[pos as int] == r);
                assert(forall|k: int|
                    pos < k < out@.len() ==> #[trigger] out@[k] == pre[k - 1]);
                if pos < pre.len() {
                    assert(rect_area(pre[pos as int]) > rect_area(r));
                }
            }
        }
        i = i + 1;
    }
    proof {
        assert(rects@.take(i as int) =~= rects@);
    }
    out
}

/// `s[i]` is made redundant by another rectangle of `s`: it is contained in a
/// different rectangle, or it is a duplicate of an earlier one.
pub open spec fn dominated(s: Seq<Rect>, i: int) -> bool {
    exists|j: int|
        #![trigger s[j]]
        0 <= j < s.len() && ((rect_contains(s[j], s[i]) && s[j] != s[i]) || (j < i && s[j]
            == s[i]))
}

/// Every rectangle of `s` is contained in one that no other rectangle makes
/// redundant: chains of nested or duplicate rectangles end at a kept one.
proof fn lemma_dominated_has_kept_container(s: Seq<Rect>, i: int)
    requires
        0 <= i < s.len(),
    ensures
        exists|j: int|
            #![trigger s[j]]
            0 <= j < s.len() && !dominated(s, j) && rect_contains(s[j], s[i]),
    decreases 0x2_0000_0000 - (s[i].width + s[i].height), i,
{
    if !dominated(s, i) {
        assert(rect_contains(s[i], s[i]));
    } else {
        let j0 = choose|j: int|
            #![trigger s[j]]
            0 <= j < s.len() && ((rect_contains(s[j], s[i]) && s[j] != s[i]) || (j < i && s[j]
                == s[i]));
        if rect_contains(s[j0], s[i]) && s[j0] != s[i] {
            assert(s[j0].width + s[j0].height > s[i].width + s[i].height);
        }
        lemma_dominated_has_kept_container(s, j0);
        let j1 = choose|j: int|
            #![trigger s[j]]
            0 <= j < s.len() && !dominated(s, j) && rect_contains(s[j], s[j0]);
        crate::geometry::lemma_contains_trans(s[j1], s[j0], s[i]);
        assert(0 <= j1 < s.len() && !dominated(s, j1) && rect_contains(s[j1], s[i]));
    }
}

/// Removes every rectangle that is completely within another one (and every
/// duplicate but its first copy). This suppresses the "fake" small free areas
/// that the splitting step can produce inside bigger areas, keeping the free
/// list from growing unbounded. Every removed rectangle is contained in a
/// kept one, so the covered area does not shrink.
fn drop_nested(rects: &Vec<Rect>) -> (out: Vec<Rect>)
    ensures
        forall|j: int| 0 <= j < out@.len() ==> rects@.contains(#[trigger] out@[j]),
        forall|a: int, b: int|
            #![trigger out@[a], out@[b]]
            0 <= a < out@.len() && 0 <= b < out@.len() && a != b ==> !rect_contains(
                out@[b],
                out@[a],
            ),
        forall|i: int|
            0 <= i < rects@.len() && !dominated(rects@, i) ==> out@.contains(#[trigger] rects@[i]),
        area_sorted(rects@) ==> area_sorted(out@),
        forall|px: int, py: int|
            #![trigger seq_covers(rects@, px, py)]
            seq_covers(rects@, px, py) ==> seq_covers(out@, px, py),
{
    let mut out: Vec<Rect> = Vec::new();
    let ghost mut sources: Seq<int> = Seq::empty();
    let mut i: usize = 0;
    while i < rects.len()
        invariant
            0 <= i <= rects@.len(),
            sources.len() == out@.len(),
            forall|a: int|
                0 <= a < out@.len() ==> 0 <= #[trigger] sources[a] < i && !dominated(
                    rects@,
                    sources[a],
                ) && out@[a] == rects@[sources[a]],
            forall|a: int, b: int|
                #![trigger sources[a], sources[b]]
                0 <= a < b < out@.len() ==> sources[a] < sources[b],
            forall|i2: int|
                0 <= i2 < i && !dominated(rects@, i2) ==> out@.contains(#[trigger] rects@[i2]),
        decreases rects@.len() - i,
    {
        let ri = rects[i];
        let mut found = false;
        let mut j: usize = 0;
        while j < rects.len()
            invariant
                0 <= j <= rects@.len(),
                0 <= i < rects@.len(),
                ri == rects@[i as int],
                found <==> exists|j2: int|
                    #![trigger rects@[j2]]
                    0 <= j2 < j && ((rect_contains(rects@[j2], rects@[i as int]) && rects@[j2]
                        != rects@[i as int]) || (j2 < i && rects@[j2] == rects@[i as int])),
            decreases rects@.len() - j,
        {
            let rj = rects[j];
            if (rj.contains_rect(&ri) && !(rj == ri)) || (j < i && rj == ri) {
                found = true;
            }
            j = j + 1;
        }
        if !found {
            let ghost pre = out@;
            out.push(ri);
            proof {
                assert(!dominated(rects@, i as int));
                sources = sources.push(i as int);
                assert(out@[pre.len() as int] == rects@[i as int]);
                assert(forall|a: int| 0 <= a < pre.len() ==> #[trigger] out@[a] == pre[a]);
                assert forall|i2: int|
                    0 <= i2 < i + 1 && !dominated(rects@, i2) implies out@.contains(
                    #[trigger] rects@[i2],
                ) by {
                    if i2 == i as int {
                        assert(out@[pre.len() as int] == rects@[i2]);
                    } else {
                        let a0 = choose|a: int| 0 <= a < pre.len() && #[trigger] pre[a] == rects@[i2];
                        assert(out@[a0] == rects@[i2]);
                    }
                }
            }
        } else {
            proof {
                assert(dominated(rects@, i as int));
            }
        }
        i = i + 1;
    }
    proof {
        assert forall|j: int| 0 <= j < out@.len() implies rects@.contains(#[trigger] out@[j]) by {
            assert(out@[j] == rects@[sources[j]]);
        }
        if area_sorted(rects@) {
            assert forall|a: int, b: int|
                #![trigger out@[a], out@[b]]
                0 <= a < b < out@.len() implies rect_area(out@[a]) <= rect_area(out@[b]) by {
                assert(sources[a] < sources[b]);
                assert(out@[a] == rects@[sources[a]] && out@[b] == rects@[sources[b]]);
            }
        }
        assert forall|a: int, b: int|
            #![trigger out@[a], out@[b]]
            0 <= a < out@.len() && 0 <= b < out@.len() && a != b implies !rect_contains(
            out@[b],
            out@[a],
        ) by {
            if rect_contains(out@[b], out@[a]) {
                let ia = sources[a];
                let ib = sources[b];
                assert(out@[a] == rects@[ia] && out@[b] == rects@[ib]);
                if out@[a] == out@[b] {
                    if a < b {
                        assert(dominated(rects@, ib));
                    } else {
                        assert(dominated(rects@, ia));
                    }
                } else {
                    assert(rect_contains(rects@[ib], rects@[ia]) && rects@[ib] != rects@[ia]);
                    assert(dominated(rects@, ia));
                }
            }
        }
        assert forall|px: int, py: int|
            #![trigger seq_covers(rects@, px, py)]
            seq_covers(rects@, px, py) implies seq_covers(out@, px, py) by {
            let c0 = choose|c: int| 0 <= c < rects@.len() && covers(#[trigger] rects@[c], px, py);
            lemma_dominated_has_kept_container(rects@, c0);
            let k0 = choose|j: int|
                #![trigger rects@[j]]
                0 <= j < rects@.len() && !dominated(rects@, j) && rect_contains(rects@[j], rects@[c0]);
            crate::geometry::lemma_contains_covers(rects@[k0], rects@[c0], px, py);
            assert(out@.contains(rects@[k0]));
            let a0 = choose|a: int| 0 <= a < out@.len() && #[trigger] out@[a] == rects@[k0];
            assert(covers(out@[a0], px, py));
        }
    }
    out
}

/// A collection whose rectangles all occur in `src` is contained in `src`.
proof fn lemma_elements_contained(out: Seq<Rect>, src: Seq<Rect>)
    requires
        forall|j: int| 0 <= j < out.len() ==> src.contains(#[trigger] out[j]),
    ensures
        all_contained_in(out, src),
{
    assert forall|j: int| 0 <= j < out.len() implies contained_in_some(
        src,
        #[trigger] out[j],
    ) by {
        let i0 = choose|i: int| 0 <= i < src.len() && #[trigger] src[i] == out[j];
        assert(rect_contains(src[i0], out[j]));
    }
}

/// A collection that keeps every rectangle of `src` covers whatever `src`
/// covers.
proof fn lemma_elements_keep_coverage(src: Seq<Rect>, out: Seq<Rect>)
    requires
        forall|i: int| 0 <= i < src.len() ==> out.contains(#[trigger] src[i]),
    ensures
        forall|px: int, py: int|
            #![trigger seq_covers(src, px, py)]
            seq_covers(src, px, py) ==> seq_covers(out, px, py),
{
    assert forall|px: int, py: int|
        #![trigger seq_covers(src, px, py)]
        seq_covers(src, px, py) implies seq_covers(out, px, py) by {
        let c0 = choose|c: int| 0 <= c < src.len() && covers(#[trigger] src[c], px, py);
        assert(out.contains(src[c0]));
        let a0 = choose|a: int| 0 <= a < out.len() && #[trigger] out[a] == src[c0];
        assert(covers(out[a0], px, py));
    }
}

/// Containment between collections is transitive.
proof fn lemma_contained_trans_seq(a: Seq<Rect>, b: Seq<Rect>, c: Seq<Rect>)
    requires
        all_contained_in(a, b),
        all_contained_in(b, c),
    ensures
        all_contained_in(a, c),
{
    assert forall|j: int| 0 <= j < a.len() implies contained_in_some(c, #[trigger] a[j]) by {
        assert(contained_in_some(b, a[j]));
        let ib = choose|i: int| 0 <= i < b.len() && rect_contains(#[trigger] b[i], a[j]);
        assert(contained_in_some(c, b[ib]));
        let ic = choose|i: int| 0 <= i < c.len() && rect_contains(#[trigger] c[i], b[ib]);
        crate::geometry::lemma_contains_trans(c[ic], b[ib], a[j]);
        assert(rect_contains(c[ic], a[j]));
    }
}

/// A collection contained in one that avoids `r` avoids `r` as well.
proof fn lemma_contained_none_overlap(out: Seq<Rect>, src: Seq<Rect>, r: Rect)
    requires
        all_contained_in(out, src),
        none_overlap(src, r),
    ensures
        none_overlap(out, r),
{
    assert forall|j: int| 0 <= j < out.len() implies !rect_overlaps(#[trigger] out[j], r) by {
        assert(contained_in_some(src, out[j]));
        let i0 = choose|i: int| 0 <= i < src.len() && rect_contains(#[trigger] src[i], out[j]);
        if rect_overlaps(out[j], r) {
            crate::geometry::lemma_contained_overlap(src[i0], out[j], r);
        }
    }
}

/// A collection contained in one that lies within the surface lies within
/// the surface as well.
proof fn lemma_contained_in_surface_seq(out: Seq<Rect>, src: Seq<Rect>, w: u32, h: u32)
    requires
        all_contained_in(out, src),
        all_in_surface(src, w, h),
    ensures
        all_in_surface(out, w, h),
{
    assert forall|j: int| 0 <= j < out.len() implies rect_in_surface(#[trigger] out[j], w, h) by {
        assert(contained_in_some(src, out[j]));
        let i0 = choose|i: int| 0 <= i < src.len() && rect_contains(#[trigger] src[i], out[j]);
        crate::geometry::lemma_contained_in_surface(src[i0], out[j], w, h);
    }
}

/// `rect` is the placement the first-fit scan yields at index `fi`: the
/// rectangle at `fi` is the first one large enough, and the placement is that
/// rectangle trimmed to exactly the requested extent, anchored at its origin.
pub open spec fn first_fit_at(frees: Seq<Rect>, fi: int, rect: Rect, width: u32, height: u32) -> bool {
    &&& 0 <= fi < frees.len()
    &&& rect_fits(frees[fi], width, height)
    &&& forall|j: int| 0 <= j < fi ==> !rect_fits(#[trigger] frees[j], width, height)
    &&& rect == (Rect { x: frees[fi].x, y: frees[fi].y, width, height })
}

/// `rect` is the placement the first-fit scan over `frees` yields.
pub open spec fn is_first_fit(frees: Seq<Rect>, rect: Rect, width: u32, height: u32) -> bool {
    exists|fi: int| #[trigger] first_fit_at(frees, fi, rect, width, height)
}

/// A first-fit placement is contained in the free rectangle it was trimmed
/// from.
pub proof fn lemma_first_fit_contained(frees: Seq<Rect>, rect: Rect, width: u32, height: u32)
    requires
        is_first_fit(frees, rect, width, height),
    ensures
        contained_in_some(frees, rect),
        rect.width == width,
        rect.height == height,
{
    let fi = choose|fi: int| #[trigger] first_fit_at(frees, fi, rect, width, height);
    assert(rect_contains(frees[fi], rect));
}

/// A reservation found at a slot determines `rect_of`: with keys reserved at
/// most once, looking a key up is deterministic.
pub proof fn lemma_rect_of_at(s: RectAllocator, key: TileKey, i: int)
    requires
        s.wf(),
        0 <= i < s.reservations().len(),
        s.reservations()[i].key == key,
    ensures
        s.has_key(key),
        s.key_slot(key) == i,
        s.rect_of(key) == s.reservations()[i].rect,
{
    assert(s.has_key(key));
    let j = s.key_slot(key);
    assert(0 <= j < s.reservations().len() && s.reservations()[j].key == key);
    assert(j == i);
}

/// No two committed placements overlap: every successfully reserved tile has
/// its surface region to itself.
pub proof fn lemma_reservations_disjoint(s: RectAllocator, i: int, j: int)
    requires
        s.wf(),
        0 <= i < s.reservations().len(),
        0 <= j < s.reservations().len(),
        i != j,
    ensures
        !rect_overlaps(s.reservations()[i].rect, s.reservations()[j].rect),
{
}

/// Two distinct reserved keys have placements that do not overlap: every
/// successfully placed tile has its surface region to itself.
pub proof fn lemma_distinct_keys_disjoint_placements(s: RectAllocator, k1: TileKey, k2: TileKey)
    requires
        s.wf(),
        s.has_key(k1),
        s.has_key(k2),
        k1 != k2,
    ensures
        !rect_overlaps(s.rect_of(k1), s.rect_of(k2)),
{
    let i1 = s.key_slot(k1);
    let i2 = s.key_slot(k2);
    assert(0 <= i1 < s.reservations().len() && s.reservations()[i1].key == k1);
    assert(0 <= i2 < s.reservations().len() && s.reservations()[i2].key == k2);
    assert(i1 != i2);
}

/// No free rectangle overlaps any committed placement: every point covered by
/// a free rectangle is actually unoccupied.
pub proof fn lemma_frees_disjoint_from_reservations(s: RectAllocator, i: int, j: int)
    requires
        s.wf(),
        0 <= i < s.frees().len(),
        0 <= j < s.reservations().len(),
    ensures
        !rect_overlaps(s.frees()[i], s.reservations()[j].rect),
{
}

/// Once the whole of an allocator's only free rectangle has been consumed
/// by a placement, no tile of positive extent fits the rebuilt free list:
/// every remaining free rectangle lies inside the consumed one yet avoids
/// it, so it covers nothing.
pub proof fn lemma_full_consumption_leaves_no_space(
    frees0: Seq<Rect>,
    frees1: Seq<Rect>,
    placement: Rect,
    width: u32,
    height: u32,
)
    requires
        frees0.len() == 1,
        frees0[0] == placement,
        all_contained_in(frees1, frees0),
        none_overlap(frees1, placement),
        width >= 1,
        height >= 1,
    ensures
        no_fit(frees1, width, height),
{
    assert forall|i: int| 0 <= i < frees1.len() implies !rect_fits(
        #[trigger] frees1[i],
        width,
        height,
    ) by {
        let f = frees1[i];
        if f.width >= width && f.height >= height {
            assert(contained_in_some(frees0, f));
            let c = choose|c: int| 0 <= c < frees0.len() && rect_contains(#[trigger] frees0[c], f);
            assert(frees0[c] == placement);
            assert(rect_overlaps(f, placement));
        }
    }
}

/// A request wider or taller than the surface fits no free rectangle of a
/// well-formed allocator.
pub proof fn lemma_oversized_request_never_fits(s: RectAllocator, width: u32, height: u32)
    requires
        s.wf(),
        width > s.surface_width() || height > s.surface_height(),
    ensures
        no_fit(s.frees(), width, height),
{
    assert forall|i: int| 0 <= i < s.frees().len() implies !rect_fits(
        #[trigger] s.frees()[i],
        width,
        height,
    ) by {
        assert(rect_in_surface(s.frees()[i], s.surface_width(), s.surface_height()));
    }
}

} // verus!
