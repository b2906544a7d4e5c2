# apilaaa

A stacker for RAW astrophotography sequences, tracked or on a fixed tripod. It
aligns the frames, takes lens halo and sky gradient off them, averages them into
a linear DNG and exports the cleaned frames as a timelapse.

The crate is split by what can be proved:

- `src/` is a library verified with Verus. It holds the decisions of a run:
  which frames are stacked, exported and modelled, what the crop is, which
  samples a pixel is made of, how the export steps through its window, what the
  metadata of a file is and how it is laid out, what the setup screen and the
  dashboard show. It works on integers, booleans and text; a floating-point
  number enters as an integer key that orders the same way (`order::order_key`).
- `app/` is the program around it: files, threads, the terminal, and the images
  themselves, which are floating point.
- `tests/` runs the library on concrete values.

| Module | What it decides |
|---|---|
| `session` | settings, alignment repair, selection for stack, model and export |
| `stack` | coverage and the largest rectangle every frame covers |
| `timelapse` | combination of a window, transients, the order of the export |
| `flatten`, `fit`, `fixed` | masks, medians over time, gaps, drift and sky chain |
| `align`, `stars` | local maxima, votes, draws |
| `exif`, `embed`, `output` | tags of RAW files, their place in a DNG, DNG tags |
| `raw`, `resources` | file extensions, Bayer patterns, memory budget |
| `ui` | log, progress, dashboard, setup form and its command line |
| `order`, `region`, `grid`, `text`, `codec` | ranks, components, cells, texts, words |

Each public function states its result in its `ensures`. What holds across
functions is stated by the public proof functions whose names start with `law_`.
