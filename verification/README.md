# heven

Heven is a small UI platform layer: callers build a scene of surfaces,
frames and styled text, hand it to an app, and the app draws it with `wgpu`
in a `winit` window. Text is shaped with `cosmic-text` and its glyphs are
packed into a CPU-side atlas that is uploaded to the GPU.

The library in `src/` is verified with Verus:

- `color.rs`, `text.rs`: byte colors, styled spans, and the signature by
  which shaped text is reused.
- `scene.rs`: the scene and its content version, which moves with every
  geometry change and not with camera or background changes.
- `atlas.rs`, `raster.rs`, `sdf.rs`: the glyph atlas. Glyphs are padded,
  optionally turned into distance fields, and packed on shelves; placed glyphs
  never overlap and keep their pixels, and with an ordered level table more
  coverage never lowers a distance value.
- `order.rs`: the back-to-front drawing order of surfaces.
- `upload.rs`: which GPU uploads a frame needs.
- `present.rs`: whether a redraw draws, reconfigures the surface, or waits.
- `schedule.rs`, `clock.rs`: redraw decisions of the event loop and frame
  statistics.
- `outside.rs`: the declarations and calls through which the library uses
  `cosmic-text` and `std::collections::HashMap`.

`app/` holds what Verus does not see: the window and event loop, the GPU
renderer, text shaping, camera and color math in floating point, and the
surfaces, frames and texts whose positions are floating point.
