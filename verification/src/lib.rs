//! A glyph-atlas cache for text rendering.
//!
//! The core is a rectangle-packing allocator ([`RectAllocator`]) that manages
//! a fixed-size 2D surface into which variably-sized tiles (rasterized glyph
//! bitmaps) are placed on demand, with deduplication: a tile key that was
//! placed once always resolves to the same placement rectangle, and committed
//! placements never overlap.
//!
//! Around the allocator, the renderer module turns a batch of positioned tile
//! requests into a render plan: pending uploads, pending blits, and tiles that
//! could not be placed. Executing the plan (pixel upload and canvas copies) is
//! left to the embedding application.

pub mod geometry;
pub mod rect_allocator;
pub mod renderer;

pub use geometry::Rect;
pub use rect_allocator::CacheReservation;
pub use rect_allocator::Color;
pub use rect_allocator::RectAllocator;
pub use rect_allocator::TileKey;
pub use renderer::RenderPlan;
pub use renderer::TileRequest;
