# ici_core

The verified core of an ICI (intermittent current interruption) analysis
library: reading cycler exports (delimited text and ASAM MDF4 files),
segmenting a record into rests and active runs, and the integer decisions
of the fits that follow.

- `src/` is the library, written in Verus and verified: byte and text
  codecs, the MDF4 block layouts, data-block chains, record framing and
  sample decoding, the delimited-text sniffer and table layout, group ids,
  segmentation plans, keyed row classes, and the integer parts of the
  smoothing, regression and window search.
- `app/` holds the floating-point analysis around it (cell parsing into
  numbers, rest fits, resistances, B-spline smoothing, decimation,
  derivatives, window scoring, MDF4 to table conversion), in plain Rust.
- `tests/` exercises the library on concrete inputs.
