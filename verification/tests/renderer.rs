use fontdue_sdl2::rect_allocator::{Color, RectAllocator, TileKey};
use fontdue_sdl2::renderer::{expand_coverage, plan_requests, TileRequest};

fn key(n: u16) -> TileKey {
    TileKey {
        glyph_index: n,
        px_bits: 0x41f0_0000,
        font_hash: 3,
        color: Color { r: 1, g: 2, b: 3, a: 255 },
    }
}

fn request(n: u16, x: i32, y: i32, w: u32, h: u32) -> TileRequest {
    TileRequest { key: key(n), x, y, width: w, height: h, color: Color { r: 1, g: 2, b: 3, a: 255 } }
}

#[test]
fn zero_extent_batch_plans_nothing() {
    // A batch of two zero-extent requests: no blits, no fallbacks, no
    // uploads (so nothing would ever be rasterized).
    let mut alloc = RectAllocator::new(1024, 1024);
    let requests = vec![request(1, 5, 5, 0, 12), request(2, 9, 9, 7, 0)];
    let plan = plan_requests(&mut alloc, &requests);
    assert!(plan.blits.is_empty());
    assert!(plan.uploads.is_empty());
    assert!(plan.missing.is_empty());
}

#[test]
fn mixed_batch_plans_hits_misses_and_fallbacks() {
    let mut alloc = RectAllocator::new(64, 64);
    let requests = vec![
        request(1, 0, 0, 32, 32),   // fresh: upload + blit
        request(1, 40, 0, 32, 32),  // same key: blit only
        request(2, 0, 40, 64, 64),  // too big for what is left: fallback
        request(3, -3, 80, 0, 0),   // zero extent: skipped
        request(4, 10, 10, 16, 16), // fresh: upload + blit
    ];
    let plan = plan_requests(&mut alloc, &requests);

    assert_eq!(plan.blits.len(), 3);
    assert_eq!(plan.uploads.len(), 2);
    assert_eq!(plan.missing.len(), 1);

    // Uploads point back at the requests that missed the cache.
    assert_eq!(plan.uploads[0].request_index, 0);
    assert_eq!(plan.uploads[1].request_index, 4);
    assert_eq!(plan.uploads[0].key, key(1));
    assert_eq!(plan.uploads[1].key, key(4));
    assert_eq!(plan.uploads[0].texture_rect.width, 32);
    assert_eq!(plan.uploads[0].texture_rect.height, 32);
    assert_eq!(plan.uploads[1].texture_rect.width, 16);
    assert_eq!(plan.uploads[1].texture_rect.height, 16);

    // The two blits of the shared key copy from the same atlas placement,
    // to the canvas rectangles the requests asked for.
    assert_eq!(plan.blits[0].texture_rect, plan.blits[1].texture_rect);
    assert_eq!(
        (plan.blits[0].canvas_rect.x, plan.blits[0].canvas_rect.y),
        (0, 0)
    );
    assert_eq!(
        (plan.blits[1].canvas_rect.x, plan.blits[1].canvas_rect.y),
        (40, 0)
    );
    assert_eq!(
        (plan.blits[2].canvas_rect.x, plan.blits[2].canvas_rect.y),
        (10, 10)
    );
    assert_eq!(plan.blits[1].canvas_rect.width, 32);
    assert_eq!(plan.blits[2].canvas_rect.width, 16);

    // The fallback marker carries the failed request's place and color.
    assert_eq!(
        (plan.missing[0].canvas_rect.x, plan.missing[0].canvas_rect.y),
        (0, 40)
    );
    assert_eq!(
        (plan.missing[0].canvas_rect.width, plan.missing[0].canvas_rect.height),
        (64, 64)
    );
    assert_eq!(plan.missing[0].color, Color { r: 1, g: 2, b: 3, a: 255 });
}

#[test]
fn replanning_the_same_batch_needs_no_uploads() {
    // Once a batch is planned, planning it again hits the cache for every
    // tile: same blits, no new uploads, no fallbacks.
    let mut alloc = RectAllocator::new(128, 128);
    let requests = vec![request(1, 0, 0, 20, 20), request(2, 30, 0, 20, 20)];
    let first = plan_requests(&mut alloc, &requests);
    assert_eq!(first.uploads.len(), 2);
    let second = plan_requests(&mut alloc, &requests);
    assert_eq!(second.uploads.len(), 0);
    assert_eq!(second.missing.len(), 0);
    assert_eq!(second.blits.len(), first.blits.len());
    for (a, b) in first.blits.iter().zip(second.blits.iter()) {
        assert_eq!(a.texture_rect, b.texture_rect);
        assert_eq!(a.canvas_rect, b.canvas_rect);
    }
}

#[test]
fn expand_coverage_interleaves_color_and_alpha() {
    let coverage = vec![0u8, 128, 255];
    let color = Color { r: 10, g: 20, b: 30, a: 255 };
    let rgba = expand_coverage(&coverage, color);
    assert_eq!(
        rgba,
        vec![10, 20, 30, 0, 10, 20, 30, 128, 10, 20, 30, 255]
    );
}

#[test]
fn expand_coverage_of_nothing_is_nothing() {
    let rgba = expand_coverage(&Vec::new(), Color { r: 1, g: 2, b: 3, a: 4 });
    assert!(rgba.is_empty());
}
