# pixelsort

Pixel sorting of images: an edge map is computed with a Sobel filter, and in
every row the runs of pixels between edges are sorted by brightness (the sum
of the three channels), stably.

- `src/` is the verified library (Verus):
  - `color.rs`: `Color` and its brightness order;
  - `brightness_sort.rs`: the stable sort by brightness, specified as the
    concatenation of the brightness classes, with its laws;
  - `rows.rs`: `pixel_sort`, specified row by row by `sorted_row`, with its laws;
  - `raster.rs`: packed RGB buffers and edge highlighting.
- `app/` is the command-line program: image I/O with the `image` crate, and the
  floating-point parts (HDR colors, the Sobel filter, the edge threshold).
- `tests/` runs the library on concrete images.
