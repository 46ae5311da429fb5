# vector_graphics

A small CPU vector-graphics renderer whose integer and structural core is
verified with Verus.

- `src/` is the verified library:
  - `color` — packed `0xAARRGGBB` colors, channel access and alpha blending;
  - `canvas` — a pixel canvas over a borrowed `u32` buffer with a row stride;
  - `raster` — Bresenham lines, coverage plotting, span filling of a
    scanline under the nonzero winding rule, compositing a scanline, and the
    edge lists of polygons given as runs of points;
  - `path` — paths of drawing commands over points of any type, with their
    subpaths, segments, and point-wise transforms;
  - `gather` — turning a path into point lists for filling (closed runs) and
    for hairlines (one polyline per subpath), with the curve geometry passed
    in as a closure;
  - `outline` — reversing a subpath and assembling the outline of a stroke
    from its two sides.
- `app/` is the window program: float vectors and transforms, Bézier
  flattening, offset curves and the stroker's joins, the scanline edge
  walker, anti-aliased lines, glyph outlines through `skrifa`, and the
  `winit`/`softbuffer` event loop.
- `tests/` runs the library on concrete inputs.
