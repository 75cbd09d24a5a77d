# Visor

A viewer for logic-analyser captures (`.dsl` files), with a decoder for QSPI.

- `src/` is the library. Everything in it is verified with Verus: reading
  captures, merging blocks of samples into channels, finding transactions,
  decoding and grouping packets, timing, and the decisions behind the view.
- `app/` is the program around it: windows, drawing, files, threads, and what
  is computed in floating point.
- `tests/` runs the library on concrete values.

A capture is a zip archive. Its entry `header` is a list of `key = value`
lines, `session` is JSON, and `L-<channel>/<block>` holds the raw samples of a
block: one bit per sample, the lowest bit of a byte first, at most 2 MiB.

What the library takes on trust is in `src/archive.rs`: what the `zip` crate
finds in the bytes of a file.
