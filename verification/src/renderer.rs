//! The cache-backed render planner: drives a batch of positioned tile
//! requests through the atlas allocator and turns it into a render plan —
//! pending pixel uploads for fresh placements, pending blits for every placed
//! tile, and fallback markers for tiles that found no space. Executing the
//! plan (rasterization, pixel upload, canvas copies) is the embedding
//! application's part.

use vstd::prelude::*;

use crate::geometry::Rect;
use crate::rect_allocator::{CacheReservation, Color, RectAllocator, Reservation, TileKey};

verus! {

/// A rectangle on the destination canvas; the position may be negative when
/// a tile is laid out partly outside the visible area.
#[derive(Clone, Copy, Debug, PartialEq, Eq, Structural)]
pub struct CanvasRect {
    pub x: i32,
    pub y: i32,
    pub width: u32,
    pub height: u32,
}

/// One positioned tile request: which tile to draw, where on the canvas, at
/// what extent, and in which color.
#[derive(Clone, Copy, Debug, PartialEq, Eq, Structural)]
pub struct TileRequest {
    pub key: TileKey,
    pub x: i32,
    pub y: i32,
    pub width: u32,
    pub height: u32,
    pub color: Color,
}

/// A pending copy from the atlas surface onto the canvas.
#[derive(Clone, Copy, Debug, PartialEq, Eq, Structural)]
pub struct PendingBlit {
    pub texture_rect: Rect,
    pub canvas_rect: CanvasRect,
}

/// A pending pixel upload: the tile of request `request_index` must be
/// rasterized and written to `texture_rect` before the blits are executed.
#[derive(Clone, Copy, Debug, PartialEq, Eq, Structural)]
pub struct PendingUpload {
    pub request_index: usize,
    pub key: TileKey,
    pub color: Color,
    pub texture_rect: Rect,
}

/// A tile that found no space in the atlas: its canvas rectangle is to be
/// marked visibly (an outline in the request's color) instead of drawn.
#[derive(Clone, Copy, Debug, PartialEq, Eq, Structural)]
pub struct MissingTile {
    pub color: Color,
    pub canvas_rect: CanvasRect,
}

/// What a batch of requests turned into: uploads to perform first, then one
/// blit per placed tile, then one fallback marker per unplaced tile.
pub struct RenderPlan {
    pub uploads: Vec<PendingUpload>,
    pub blits: Vec<PendingBlit>,
    pub missing: Vec<MissingTile>,
}

/// A request with zero area is nothing to draw or cache and is skipped.
pub open spec fn drawable(req: TileRequest) -> bool {
    req.width > 0 && req.height > 0
}

/// The canvas rectangle a request asks to be drawn at.
pub open spec fn canvas_rect_of(req: TileRequest) -> CanvasRect {
    CanvasRect { x: req.x, y: req.y, width: req.width, height: req.height }
}

/// How many requests of the batch have a positive extent.
pub open spec fn count_drawable(s: Seq<TileRequest>) -> int
    decreases s.len(),
{
    if s.len() == 0 {
        0
    } else {
        count_drawable(s.drop_last()) + if drawable(s.last()) {
            1int
        } else {
            0int
        }
    }
}

/// The blit `b` serves the request `req`: the request is drawable, the blit
/// goes to the request's canvas rectangle, and it copies from the placement
/// the allocator committed for the request's key.
pub open spec fn blit_for(req: TileRequest, alloc: RectAllocator, b: PendingBlit) -> bool {
    &&& drawable(req)
    &&& b.canvas_rect == canvas_rect_of(req)
    &&& alloc.has_key(req.key)
    &&& alloc.rect_of(req.key) == b.texture_rect
}

/// The blit `b` serves some request of the batch.
pub open spec fn blit_from_some(
    requests: Seq<TileRequest>,
    alloc: RectAllocator,
    b: PendingBlit,
) -> bool {
    exists|i: int| 0 <= i < requests.len() && blit_for(#[trigger] requests[i], alloc, b)
}

/// The upload `u` belongs to the request it points at: that request is
/// drawable, carries the upload's key and color, and the allocator committed
/// the upload's rectangle, of exactly the requested extent, for that key.
/// (That the request was a cache miss, and that a fresh placement owes
/// exactly one upload, is stated by [`planned`].)
pub open spec fn upload_ok(
    requests: Seq<TileRequest>,
    alloc: RectAllocator,
    u: PendingUpload,
) -> bool {
    &&& 0 <= u.request_index < requests.len()
    &&& drawable(requests[u.request_index as int])
    &&& u.key == requests[u.request_index as int].key
    &&& u.color == requests[u.request_index as int].color
    &&& u.texture_rect.width == requests[u.request_index as int].width
    &&& u.texture_rect.height == requests[u.request_index as int].height
    &&& alloc.has_key(u.key)
    &&& alloc.rect_of(u.key) == u.texture_rect
}

/// The fallback marker `m` reports some drawable request of the batch, in
/// that request's color and at its canvas rectangle.
pub open spec fn missing_for(req: TileRequest, m: MissingTile) -> bool {
    &&& drawable(req)
    &&& m.color == req.color
    &&& m.canvas_rect == canvas_rect_of(req)
}

/// The fallback marker `m` reports some request of the batch.
pub open spec fn missing_from_some(requests: Seq<TileRequest>, m: MissingTile) -> bool {
    exists|i: int| 0 <= i < requests.len() && missing_for(#[trigger] requests[i], m)
}

/// The plan is, request by request, exactly what each request's reserve
/// outcome dictates. `states` is the chain of allocator states the batch
/// passes through: `states[i]` is the allocator before request `i` is
/// processed, and each request contributes to the plan according to its
/// outcome in that state. A zero-area request touches nothing. A request
/// whose key is reserved in its state is a cache hit: the allocator is
/// unchanged and the request contributes exactly one blit from the committed
/// placement. A fresh drawable request that fits contributes exactly one
/// upload and one blit at its first-fit placement, and the reservation for
/// its key is appended; so a key is rasterized and uploaded at most once. A
/// drawable request that fits nowhere leaves the allocator unchanged and
/// contributes exactly one fallback marker. Contributions appear in request
/// order, and nothing else is in the plan.
pub open spec fn planned(
    requests: Seq<TileRequest>,
    states: Seq<RectAllocator>,
    uploads: Seq<PendingUpload>,
    blits: Seq<PendingBlit>,
    missing: Seq<MissingTile>,
) -> bool
    decreases requests.len(),
{
    if requests.len() == 0 {
        &&& states.len() == 1
        &&& uploads.len() == 0
        &&& blits.len() == 0
        &&& missing.len() == 0
    } else {
        let req = requests.last();
        let pre = states[states.len() - 2];
        let post = states[states.len() - 1];
        &&& states.len() == requests.len() + 1
        &&& if !drawable(req) {
            &&& post == pre
            &&& planned(requests.drop_last(), states.drop_last(), uploads, blits, missing)
        } else if pre.has_key(req.key) {
            &&& post == pre
            &&& blits.len() > 0
            &&& blits.last() == (PendingBlit {
                texture_rect: pre.rect_of(req.key),
                canvas_rect: canvas_rect_of(req),
            })
            &&& planned(
                requests.drop_last(),
                states.drop_last(),
                uploads,
                blits.drop_last(),
                missing,
            )
        } else if !crate::rect_allocator::no_fit(pre.frees(), req.width, req.height) {
            &&& uploads.len() > 0
            &&& blits.len() > 0
            &&& blits.last().canvas_rect == canvas_rect_of(req)
            &&& crate::rect_allocator::is_first_fit(
                pre.frees(),
                blits.last().texture_rect,
                req.width,
                req.height,
            )
            &&& uploads.last().request_index as int == requests.len() - 1
            &&& uploads.last().key == req.key
            &&& uploads.last().color == req.color
            &&& uploads.last().texture_rect == blits.last().texture_rect
            &&& post.reservations() == pre.reservations().push(
                (Reservation { key: req.key, rect: blits.last().texture_rect }),
            )
            &&& post.surface_width() == pre.surface_width()
            &&& post.surface_height() == pre.surface_height()
            &&& post.wf()
            &&& planned(
                requests.drop_last(),
                states.drop_last(),
                uploads.drop_last(),
                blits.drop_last(),
                missing,
            )
        } else {
            &&& post == pre
            &&& missing.len() > 0
            &&& missing.last() == (MissingTile {
                color: req.color,
                canvas_rect: canvas_rect_of(req),
            })
            &&& planned(
                requests.drop_last(),
                states.drop_last(),
                uploads,
                blits,
                missing.drop_last(),
            )
        }
    }
}

/// Counting drawable requests, one request at a time.
proof fn lemma_count_drawable_step(s: Seq<TileRequest>, i: int)
    requires
        0 <= i < s.len(),
    ensures
        count_drawable(s.take(i + 1)) == count_drawable(s.take(i)) + if drawable(s[i]) {
            1int
        } else {
            0int
        },
{
    assert(s.take(i + 1).drop_last() =~= s.take(i));
    assert(s.take(i + 1).last() == s[i]);
}

/// Reservations are append-only, so a key's committed placement survives
/// later reservations unchanged.
pub proof fn lemma_lookup_stable(pre: RectAllocator, post: RectAllocator, key: TileKey)
    requires
        post.wf(),
        pre.reservations().is_prefix_of(post.reservations()),
        pre.has_key(key),
    ensures
        post.has_key(key),
        post.rect_of(key) == pre.rect_of(key),
{
    let i = pre.key_slot(key);
    assert(0 <= i < pre.reservations().len() && pre.reservations()[i].key == key);
    assert(pre.reservations() =~= post.reservations().subrange(
        0,
        pre.reservations().len() as int,
    ));
    assert(post.reservations()[i] == pre.reservations()[i]);
    crate::rect_allocator::lemma_rect_of_at(post, key, i);
}

/// A prefix of a collection is still a prefix after one more element.
proof fn lemma_prefix_push(a: Seq<Reservation>, b: Seq<Reservation>, x: Reservation)
    requires
        a.is_prefix_of(b),
    ensures
        a.is_prefix_of(b.push(x)),
{
    assert(a =~= b.subrange(0, a.len() as int));
    assert(a =~= b.push(x).subrange(0, a.len() as int));
}

/// Turns a batch of positioned tile requests into a render plan, in request
/// order: zero-area requests are skipped; a request whose key is already
/// placed becomes a blit; a request that gets a fresh placement becomes an
/// upload and a blit; a request that finds no space becomes a fallback
/// marker. Every drawable request becomes exactly one blit or one marker.
pub fn plan_requests(alloc: &mut RectAllocator, requests: &Vec<TileRequest>) -> (plan: RenderPlan)
    requires
        old(alloc).wf(),
    ensures
        final(alloc).wf(),
        final(alloc).surface_width() == old(alloc).surface_width(),
        final(alloc).surface_height() == old(alloc).surface_height(),
        old(alloc).reservations().is_prefix_of(final(alloc).reservations()),
        plan.blits@.len() + plan.missing@.len() == count_drawable(requests@),
        plan.uploads@.len() <= plan.blits@.len(),
        forall|b: int|
            0 <= b < plan.blits@.len() ==> blit_from_some(
                requests@,
                *final(alloc),
                #[trigger] plan.blits@[b],
            ),
        forall|u: int|
            0 <= u < plan.uploads@.len() ==> upload_ok(
                requests@,
                *final(alloc),
                #[trigger] plan.uploads@[u],
            ),
        forall|m: int|
            0 <= m < plan.missing@.len() ==> missing_from_some(
                requests@,
                #[trigger] plan.missing@[m],
            ),
        (forall|i: int| 0 <= i < requests@.len() ==> !drawable(#[trigger] requests@[i]))
            ==> *final(alloc) == *old(alloc) && plan.blits@.len() == 0 && plan.uploads@.len() == 0
            && plan.missing@.len() == 0,
        exists|states: Seq<RectAllocator>|
            #![trigger planned(requests@, states, plan.uploads@, plan.blits@, plan.missing@)]
            states.len() == requests@.len() + 1 && states[0] == *old(alloc) && states[requests@.len() as int]
                == *final(alloc) && planned(
                requests@,
                states,
                plan.uploads@,
                plan.blits@,
                plan.missing@,
            ),
{
    let ghost alloc0 = *alloc;
    let mut uploads: Vec<PendingUpload> = Vec::new();
    let mut blits: Vec<PendingBlit> = Vec::new();
    let mut missing: Vec<MissingTile> = Vec::new();
    let mut i: usize = 0;
    let ghost mut states: Seq<RectAllocator> = seq![*alloc];
    proof {
        assert(requests@.take(0) =~= Seq::<TileRequest>::empty());
        assert(alloc0.reservations() =~= alloc0.reservations().subrange(
            0,
            alloc0.reservations().len() as int,
        ));
        assert(planned(requests@.take(0), states, uploads@, blits@, missing@));
    }
    while i < requests.len()
        invariant
            0 <= i <= requests@.len(),
            alloc0 == *old(alloc),
            alloc0.wf(),
            alloc.wf(),
            alloc.surface_width() == alloc0.surface_width(),
            alloc.surface_height() == alloc0.surface_height(),
            alloc0.reservations().is_prefix_of(alloc.reservations()),
            blits@.len() + missing@.len() == count_drawable(requests@.take(i as int)),
            uploads@.len() <= blits@.len(),
            forall|b: int|
                0 <= b < blits@.len() ==> blit_from_some(requests@, *alloc, #[trigger] blits@[b]),
            forall|u: int|
                0 <= u < uploads@.len() ==> upload_ok(requests@, *alloc, #[trigger] uploads@[u]),
            forall|m: int|
                0 <= m < missing@.len() ==> missing_from_some(requests@, #[trigger] missing@[m]),
            (forall|i2: int| 0 <= i2 < i ==> !drawable(#[trigger] requests@[i2])) ==> *alloc
                == alloc0 && blits@.len() == 0 && uploads@.len() == 0 && missing@.len() == 0,
            states.len() == i + 1,
            states[0] == alloc0,
            states[i as int] == *alloc,
            planned(requests@.take(i as int), states, uploads@, blits@, missing@),
        decreases requests@.len() - i,
    {
        let req = requests[i];
        let ghost pre_alloc = *alloc;
        let ghost pre_states = states;
        let ghost pre_blits = blits@;
        let ghost pre_uploads = uploads@;
        let ghost pre_missing = missing@;
        proof {
            assert(requests@.take(i + 1).drop_last() =~= requests@.take(i as int));
            assert(requests@.take(i + 1).last() == requests@[i as int]);
        }
        if req.width > 0 && req.height > 0 {
            let canvas_rect = CanvasRect { x: req.x, y: req.y, width: req.width, height: req.height };
            let outcome = alloc.get_rect_in_texture(req.key, req.width, req.height);
            proof {
                if let CacheReservation::EmptySpace(rect) = outcome {
                    lemma_prefix_push(
                        alloc0.reservations(),
                        pre_alloc.reservations(),
                        Reservation { key: req.key, rect },
                    );
                    assert(pre_alloc.reservations().is_prefix_of(alloc.reservations()));
                }
                assert forall|b: int|
                    0 <= b < blits@.len() implies blit_from_some(
                    requests@,
                    *alloc,
                    #[trigger] blits@[b],
                ) by {
                    let i0 = choose|i2: int|
                        0 <= i2 < requests@.len() && blit_for(
                            #[trigger] requests@[i2],
                            pre_alloc,
                            blits@[b],
                        );
                    lemma_lookup_stable(pre_alloc, *alloc, requests@[i0].key);
                    assert(blit_for(requests@[i0], *alloc, blits@[b]));
                }
                assert forall|u: int|
                    0 <= u < uploads@.len() implies upload_ok(
                    requests@,
                    *alloc,
                    #[trigger] uploads@[u],
                ) by {
                    lemma_lookup_stable(pre_alloc, *alloc, uploads@[u].key);
                }
            }
            match outcome {
                CacheReservation::AlreadyRasterized(texture_rect) => {
                    blits.push(PendingBlit { texture_rect, canvas_rect });
                    proof {
                        assert(blits@ == pre_blits.push(
                            (PendingBlit { texture_rect, canvas_rect }),
                        ));
                        assert(blit_for(
                            requests@[i as int],
                            *alloc,
                            blits@[pre_blits.len() as int],
                        ));
                        assert forall|b: int|
                            0 <= b < blits@.len() implies blit_from_some(
                            requests@,
                            *alloc,
                            #[trigger] blits@[b],
                        ) by {
                            if b < pre_blits.len() {
                                assert(blits@[b] == pre_blits[b]);
                            } else {
                                assert(blit_from_some(requests@, *alloc, blits@[b]));
                            }
                        }
                        states = states.push(*alloc);
                        assert(states.drop_last() =~= pre_states);
                        assert(blits@.drop_last() =~= pre_blits);
                        assert(states[states.len() - 2] == pre_alloc);
                        assert(states[states.len() - 1] == *alloc);
                        assert(blits@.last() == (PendingBlit {
                            texture_rect: pre_alloc.rect_of(requests@[i as int].key),
                            canvas_rect: canvas_rect_of(requests@[i as int]),
                        }));
                        assert(planned(requests@.take(i + 1), states, uploads@, blits@, missing@));
                    }
                },
                CacheReservation::EmptySpace(texture_rect) => {
                    uploads.push(
                        PendingUpload {
                            request_index: i,
                            key: req.key,
                            color: req.color,
                            texture_rect,
                        },
                    );
                    blits.push(PendingBlit { texture_rect, canvas_rect });
                    proof {
                        assert(blits@ == pre_blits.push(
                            (PendingBlit { texture_rect, canvas_rect }),
                        ));
                        assert(uploads@ == pre_uploads.push(
                            (PendingUpload {
                                request_index: i,
                                key: req.key,
                                color: req.color,
                                texture_rect,
                            }),
                        ));
                        assert(blit_for(
                            requests@[i as int],
                            *alloc,
                            blits@[pre_blits.len() as int],
                        ));
                        assert(upload_ok(requests@, *alloc, uploads@[pre_uploads.len() as int]));
                        assert forall|b: int|
                            0 <= b < blits@.len() implies blit_from_some(
                            requests@,
                            *alloc,
                            #[trigger] blits@[b],
                        ) by {
                            if b < pre_blits.len() {
                                assert(blits@[b] == pre_blits[b]);
                            } else {
                                assert(blit_from_some(requests@, *alloc, blits@[b]));
                            }
                        }
                        assert(forall|u: int|
                            0 <= u < pre_uploads.len() ==> #[trigger] uploads@[u]
                                == pre_uploads[u]);
                        states = states.push(*alloc);
                        assert(states.drop_last() =~= pre_states);
                        assert(blits@.drop_last() =~= pre_blits);
                        assert(uploads@.drop_last() =~= pre_uploads);
                        assert(states[states.len() - 2] == pre_alloc);
                        assert(states[states.len() - 1] == *alloc);
                        let fi = choose|fi: int|
                            #[trigger] crate::rect_allocator::first_fit_at(
                                pre_alloc.frees(),
                                fi,
                                texture_rect,
                                req.width,
                                req.height,
                            );
                        assert(crate::geometry::rect_fits(
                            pre_alloc.frees()[fi],
                            req.width,
                            req.height,
                        ));
                        assert(!crate::rect_allocator::no_fit(
                            pre_alloc.frees(),
                            requests@[i as int].width,
                            requests@[i as int].height,
                        ));
                        assert(uploads@.last().request_index as int == requests@.take(i + 1).len()
                            - 1);
                        assert(planned(requests@.take(i + 1), states, uploads@, blits@, missing@));
                    }
                },
                CacheReservation::OutOfSpace => {
                    missing.push(MissingTile { color: req.color, canvas_rect });
                    proof {
                        assert(missing@ == pre_missing.push(
                            (MissingTile { color: req.color, canvas_rect }),
                        ));
                        assert(missing_for(
                            requests@[i as int],
                            missing@[pre_missing.len() as int],
                        ));
                        assert forall|m: int|
                            0 <= m < missing@.len() implies missing_from_some(
                            requests@,
                            #[trigger] missing@[m],
                        ) by {
                            if m < pre_missing.len() {
                                assert(missing@[m] == pre_missing[m]);
                            } else {
                                assert(missing_from_some(requests@, missing@[m]));
                            }
                        }
                        states = states.push(*alloc);
                        assert(states.drop_last() =~= pre_states);
                        assert(missing@.drop_last() =~= pre_missing);
                        assert(states[states.len() - 2] == pre_alloc);
                        assert(states[states.len() - 1] == *alloc);
                        assert(missing@.last() == (MissingTile {
                            color: requests@[i as int].color,
                            canvas_rect: canvas_rect_of(requests@[i as int]),
                        }));
                        assert(planned(requests@.take(i + 1), states, uploads@, blits@, missing@));
                    }
                },
            }
            proof {
                lemma_count_drawable_step(requests@, i as int);
            }
        } else {
            proof {
                lemma_count_drawable_step(requests@, i as int);
                states = states.push(*alloc);
                assert(states.drop_last() =~= pre_states);
                assert(states[states.len() - 2] == pre_alloc);
                assert(states[states.len() - 1] == *alloc);
                assert(!drawable(requests@[i as int]));
                assert(planned(requests@.take(i + 1), states, uploads@, blits@, missing@));
            }
        }
        i = i + 1;
    }
    let plan = RenderPlan { uploads, blits, missing };
    proof {
        assert(requests@.take(i as int) =~= requests@);
        assert(planned(requests@, states, plan.uploads@, plan.blits@, plan.missing@));
    }
    plan
}

/// Expands a single-channel coverage buffer into RGBA bytes: coverage byte
/// `p` becomes the four bytes of pixel `p`, whose red, green and blue
/// channels are the tile's color and whose alpha channel is the coverage
/// value.
pub fn expand_coverage(coverage: &Vec<u8>, color: Color) -> (out: Vec<u8>)
    ensures
        out@.len() == 4 * coverage@.len(),
        forall|k: int|
            0 <= k < out@.len() ==> #[trigger] out@[k] == (if k % 4 == 0 {
                color.r
            } else if k % 4 == 1 {
                color.g
            } else if k % 4 == 2 {
                color.b
            } else {
                coverage@[k / 4]
            }),
{
    let mut out: Vec<u8> = Vec::new();
    let mut i: usize = 0;
    while i < coverage.len()
        invariant
            0 <= i <= coverage@.len(),
            out@.len() == 4 * i,
            forall|k: int|
                0 <= k < out@.len() ==> #[trigger] out@[k] == (if k % 4 == 0 {
                    color.r
                } else if k % 4 == 1 {
                    color.g
                } else if k % 4 == 2 {
                    color.b
                } else {
                    coverage@[k / 4]
                }),
        decreases coverage@.len() - i,
    {
        let c = coverage[i];
        let ghost pre = out@;
        out.push(color.r);
        out.push(color.g);
        out.push(color.b);
        out.push(c);
        proof {
            let ii = i as int;
            assert(forall|k: int| 0 <= k < pre.len() ==> #[trigger] out@[k] == pre[k]);
            assert(out@[4 * ii] == color.r);
            assert(out@[4 * ii + 1] == color.g);
            assert(out@[4 * ii + 2] == color.b);
            assert(out@[4 * ii + 3] == coverage@[ii]);
            assert forall|k: int| 4 * ii <= k < 4 * ii + 4 implies #[trigger] out@[k] == (if k % 4
                == 0 {
                color.r
            } else if k % 4 == 1 {
                color.g
            } else if k % 4 == 2 {
                color.b
            } else {
                coverage@[k / 4]
            }) by {
                if k == 4 * ii {
                    assert(k % 4 == 0 && out@[k] == color.r);
                } else if k == 4 * ii + 1 {
                    assert(k % 4 == 1 && out@[k] == color.g);
                } else if k == 4 * ii + 2 {
                    assert(k % 4 == 2 && out@[k] == color.b);
                } else {
                    assert(k % 4 == 3 && k / 4 == ii && out@[k] == coverage@[ii]);
                }
            }
        }
        i = i + 1;
    }
    out
}

} // verus!
