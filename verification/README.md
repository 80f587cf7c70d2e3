# cattail

`cattail` tails multiple files and glob patterns at once, prefixes every
line with a source label, and follows new data as files grow, are
truncated, or disappear and reappear. Files created later that match a
startup glob are discovered and followed too.

## Layout

- `src/` — the verified library (Verus):
  - `cli.rs`: the run configuration (`Config`) and what follows from it;
  - `lines.rs`: splitting sequences at a separator, lossy UTF-8 decoding;
  - `path.rs`: Unix path components, parents, comparison and order;
  - `tail.rs`: text lines and the backward scan for the last N lines;
  - `follow.rs`: per-file follow state (offset, partial-line buffer,
    truncation and delete/recreate handling);
  - `output.rs`: shortest unique suffix labels, prefix modes, line format;
  - `resolve.rs`: deduplication and ordering of the startup files;
  - `watch.rs`: glob specs, watch-root planning and the coordinator's
    attach/wake decisions.
- `app/` — the program: argument parsing (clap), file reads, tokio
  workers, notify watching and the stdout printer, driving the library.
- `tests/` — tests of the library.
