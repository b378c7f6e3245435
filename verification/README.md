# scanline

A scanline rasterizer for SVG paths, with its path and scheduling logic
verified by Verus.

- `src/` is the verified library. Coordinates are `f32` values held as their
  bit patterns, so that paths can be built, broken into closed sub-paths,
  reversed and turned into lines without floating-point arithmetic in the
  proofs. Breaking a path into lines takes the curve flattening as a
  function argument and proves that every sub-path's lines close up. It also holds pixel rectangles, the active-edge list that tells each
  pixel row which lines cross it, and the profile statistics.
- `app/` is the program: command-line handling, reading SVG files with
  `usvg`, the floating-point geometry (the curve flattening handed to the library, line clipping,
  coverage and blending), writing PNG files with `image`, and a comparison
  renderer built on `vello_cpu`.
- `tests/` exercises the library on concrete paths, rows and rectangles.
