# xbrztrace

Turns pixel art into SVG: an optional colour clean-up, an xBRZ upscale, a
trace of every colour region's boundary into closed loops, removal of
redundant control points, and SVG output.

The library under `src/` is verified with Verus:

- `cli` – the scale factor and its parsing.
- `image_loader` – detection and undoing of integer nearest-neighbour zoom.
- `quantize` – merging of near-duplicate colours through a uniform grid.
- `xbrz_engine` – the xBRZ rules: corner preprocessing, blending and output.
- `vectorizer` – boundary tracing, loop closing and region grouping.
- `fill` – the even-odd fill of traced regions reproduces the grid.
- `optimizer` – removal of collinear and duplicate vertices.
- `svg_exporter` – the SVG text.

`app/` holds the command-line program: argument handling with clap, image
decoding with the `image` crate, and the floating-point colour metric that
drives the xBRZ decisions and the colour clean-up.
