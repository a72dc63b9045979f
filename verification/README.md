# rust_dtw_algorithm

Dynamic time warping (DTW) of multivariate series, and the bookkeeping of an
in-air signature verification experiment built on it, verified with Verus.

## Layout

- `src/dtw.rs` — the DTW recurrence over any cell type: the accumulated-cost
  table, its row-major layout, the shape check on the input buffers, and the
  laws that the cost is determined by its inputs and symmetric in the two series.
- `src/csv.rs` — splitting delimited text into fields (`str::split`
  semantics, with the split/join round trip) and gathering parsed lines into
  one row-major table.
- `src/results.rs` — the four outcome counters, recording an attempt,
  averaging results over windows, and their textual form.
- `src/schedule.rs` — thresholds tried, windows of reference signatures,
  the window check and the command-line names of the variants.
- `src/server.rs` — the decisions of the capture server.
- `src/text.rs` — decimal numerals, comparing names, hidden names.
- `app/` — the experiment program: directory walking, file reading, the
  floating-point distance and summaries, plotting, the capture server loop and
  the C interface.
- `tests/` — tests of the library on concrete values.
