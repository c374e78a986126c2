use fontdue_sdl2::rect_allocator::{CacheReservation, Color, RectAllocator, TileKey};
use fontdue_sdl2::Rect;

fn key(n: u16) -> TileKey {
    TileKey {
        glyph_index: n,
        px_bits: 0x4200_0000,
        font_hash: 7,
        color: Color { r: 255, g: 255, b: 255, a: 255 },
    }
}

fn overlaps(a: &Rect, b: &Rect) -> bool {
    a.width > 0 && a.height > 0 && b.width > 0 && b.height > 0 && (a.x as u64) < (b.x as u64)
        + (b.width as u64) && (b.x as u64) < (a.x as u64) + (a.width as u64) && (a.y as u64)
        < (b.y as u64) + (b.height as u64) && (b.y as u64) < (a.y as u64) + (a.height as u64)
}

fn in_surface(r: &Rect, width: u32, height: u32) -> bool {
    (r.x as u64) + (r.width as u64) <= width as u64 && (r.y as u64) + (r.height as u64)
        <= height as u64
}

#[test]
fn reserve_hit_and_exhaustion() {
    // A 256x256 allocator: a fresh 64x64 tile is newly placed somewhere
    // inside the surface, asking again for the same key returns the very
    // same rectangle, and a 300-wide tile can never fit.
    let mut alloc = RectAllocator::new(256, 256);
    let first = match alloc.get_rect_in_texture(key(1), 64, 64) {
        CacheReservation::EmptySpace(rect) => rect,
        _ => panic!("fresh key on an empty surface must be newly placed"),
    };
    assert_eq!(first.width, 64);
    assert_eq!(first.height, 64);
    assert!(in_surface(&first, 256, 256));

    match alloc.get_rect_in_texture(key(1), 64, 64) {
        CacheReservation::AlreadyRasterized(rect) => assert_eq!(rect, first),
        _ => panic!("a reserved key must hit the cache"),
    }

    match alloc.get_rect_in_texture(key(2), 300, 64) {
        CacheReservation::OutOfSpace => {}
        _ => panic!("a tile wider than the surface must be rejected"),
    }
}

#[test]
fn cache_hit_mutates_nothing() {
    // After a hit, the free space is exactly what it was: a tile that just
    // fits the remaining space still finds it.
    let mut alloc = RectAllocator::new(64, 32);
    let first = match alloc.get_rect_in_texture(key(1), 32, 32) {
        CacheReservation::EmptySpace(rect) => rect,
        _ => panic!("first tile must be placed"),
    };
    for _ in 0..5 {
        match alloc.get_rect_in_texture(key(1), 32, 32) {
            CacheReservation::AlreadyRasterized(rect) => assert_eq!(rect, first),
            _ => panic!("repeated lookups must keep hitting"),
        }
    }
    match alloc.get_rect_in_texture(key(2), 32, 32) {
        CacheReservation::EmptySpace(rect) => {
            assert!(!overlaps(&rect, &first));
            assert!(in_surface(&rect, 64, 32));
        }
        _ => panic!("the other half of the surface must still be free"),
    }
}

#[test]
fn oversized_request_fails_on_fresh_allocator() {
    let mut alloc = RectAllocator::new(100, 50);
    assert!(matches!(
        alloc.get_rect_in_texture(key(1), 101, 1),
        CacheReservation::OutOfSpace
    ));
    assert!(matches!(
        alloc.get_rect_in_texture(key(2), 1, 51),
        CacheReservation::OutOfSpace
    ));
    // Failure is request-scoped: a fitting tile still succeeds afterwards.
    assert!(matches!(
        alloc.get_rect_in_texture(key(3), 100, 50),
        CacheReservation::EmptySpace(_)
    ));
}

#[test]
fn full_surface_then_one_pixel_fails() {
    // Fill a 32x32 surface entirely with one 32x32 tile; no free area
    // remains, so even a 1x1 tile is rejected.
    let mut alloc = RectAllocator::new(32, 32);
    let rect = match alloc.get_rect_in_texture(key(1), 32, 32) {
        CacheReservation::EmptySpace(rect) => rect,
        _ => panic!("the full-surface tile must be placed"),
    };
    assert_eq!((rect.x, rect.y, rect.width, rect.height), (0, 0, 32, 32));
    assert!(matches!(
        alloc.get_rect_in_texture(key(2), 1, 1),
        CacheReservation::OutOfSpace
    ));
}

#[test]
fn exact_grid_tiling_fills_the_surface() {
    // 16 tiles of 16x16 exactly tile a 64x64 surface: every one is placed,
    // placements are pairwise disjoint, and afterwards nothing fits.
    let mut alloc = RectAllocator::new(64, 64);
    let mut placed: Vec<Rect> = Vec::new();
    for n in 0..16 {
        match alloc.get_rect_in_texture(key(n), 16, 16) {
            CacheReservation::EmptySpace(rect) => {
                assert_eq!((rect.width, rect.height), (16, 16));
                assert!(in_surface(&rect, 64, 64));
                for earlier in &placed {
                    assert!(!overlaps(earlier, &rect));
                }
                placed.push(rect);
            }
            _ => panic!("an exact grid tiling must always find room"),
        }
    }
    assert!(matches!(
        alloc.get_rect_in_texture(key(99), 1, 1),
        CacheReservation::OutOfSpace
    ));
}

#[test]
fn exact_column_tiling_fills_the_surface() {
    let mut alloc = RectAllocator::new(8, 80);
    for n in 0..10 {
        assert!(matches!(
            alloc.get_rect_in_texture(key(n), 8, 8),
            CacheReservation::EmptySpace(_)
        ));
    }
    assert!(matches!(
        alloc.get_rect_in_texture(key(99), 1, 1),
        CacheReservation::OutOfSpace
    ));
}

#[test]
fn mixed_sizes_pack_without_overlap() {
    // An irregular mix of extents: whatever is placed stays within the
    // surface and disjoint from everything placed before.
    let mut alloc = RectAllocator::new(128, 128);
    let sizes: [(u32, u32); 7] = [(60, 60), (60, 60), (60, 60), (60, 60), (8, 120), (120, 8), (8, 8)];
    let mut placed: Vec<Rect> = Vec::new();
    let mut rejected = 0;
    for (n, (w, h)) in sizes.iter().enumerate() {
        match alloc.get_rect_in_texture(key(n as u16), *w, *h) {
            CacheReservation::EmptySpace(rect) => {
                assert_eq!((rect.width, rect.height), (*w, *h));
                assert!(in_surface(&rect, 128, 128));
                for earlier in &placed {
                    assert!(!overlaps(earlier, &rect));
                }
                placed.push(rect);
            }
            CacheReservation::OutOfSpace => rejected += 1,
            CacheReservation::AlreadyRasterized(_) => panic!("all keys are distinct"),
        }
    }
    // The four 60x60 tiles fit a 128x128 surface; the strips may or may not,
    // but the tiny 8x8 tile fits one of the leftover 8-wide strips.
    assert!(placed.len() >= 5);
    assert!(placed.len() + rejected == sizes.len());
}

#[test]
fn small_requests_prefer_small_free_areas() {
    // Placing a 32x62 tile in a 64x64 surface leaves a large right strip
    // (32x64) and a thin bottom strip (64x2). The free list is kept sorted
    // by area ascending, so a 30x2 tile that fits both goes into the thin
    // strip, keeping the large area free for larger tiles.
    let mut alloc = RectAllocator::new(64, 64);
    match alloc.get_rect_in_texture(key(1), 32, 62) {
        CacheReservation::EmptySpace(rect) => {
            assert_eq!((rect.x, rect.y), (0, 0));
        }
        _ => panic!("first tile must be placed at the origin"),
    }
    match alloc.get_rect_in_texture(key(2), 30, 2) {
        CacheReservation::EmptySpace(rect) => {
            assert_eq!((rect.x, rect.y), (0, 62));
        }
        _ => panic!("the small tile fits the bottom strip"),
    }
}

#[test]
fn zero_area_request_is_harmless() {
    // A degenerate request neither crashes nor consumes space.
    let mut alloc = RectAllocator::new(16, 16);
    match alloc.get_rect_in_texture(key(1), 0, 5) {
        CacheReservation::EmptySpace(rect) => {
            assert_eq!((rect.width, rect.height), (0, 5));
        }
        CacheReservation::OutOfSpace => {}
        CacheReservation::AlreadyRasterized(_) => panic!("the key is fresh"),
    }
    assert!(matches!(
        alloc.get_rect_in_texture(key(2), 16, 16),
        CacheReservation::EmptySpace(_)
    ));
}

#[test]
fn distinct_colors_are_distinct_tiles() {
    // The color is part of the tile identity: the same glyph in another
    // color is a separate reservation at a disjoint placement.
    let mut alloc = RectAllocator::new(64, 32);
    let red = TileKey { color: Color { r: 255, g: 0, b: 0, a: 255 }, ..key(1) };
    let blue = TileKey { color: Color { r: 0, g: 0, b: 255, a: 255 }, ..key(1) };
    let a = match alloc.get_rect_in_texture(red, 20, 20) {
        CacheReservation::EmptySpace(rect) => rect,
        _ => panic!("red tile must be placed"),
    };
    let b = match alloc.get_rect_in_texture(blue, 20, 20) {
        CacheReservation::EmptySpace(rect) => rect,
        _ => panic!("blue tile must be placed freshly"),
    };
    assert!(!overlaps(&a, &b));
}

#[test]
fn rect_containment_and_intersection() {
    let outer = Rect::new(0, 0, 10, 10);
    let inner = Rect::new(2, 3, 4, 5);
    let crossing = Rect::new(8, 8, 10, 10);
    let apart = Rect::new(10, 0, 5, 10);
    let empty = Rect::new(5, 5, 0, 7);

    assert!(outer.contains_rect(&inner));
    assert!(!inner.contains_rect(&outer));
    assert!(outer.contains_rect(&outer));
    assert!(!outer.contains_rect(&crossing));

    assert!(outer.has_intersection(&crossing));
    assert!(crossing.has_intersection(&outer));
    assert!(!outer.has_intersection(&apart));
    assert!(!outer.has_intersection(&empty));
}
