# koyori-arc-core

The core of a Gantt chart renderer: tasks and their dependencies go in, an
SVG document (or a Canvas command buffer, or a native draw list) comes out.
The library is written in Verus; its functions carry contracts that Verus
proves.

## Layout

- `src/` — the verified library
  - `graph.rs` — tasks (dates as day numbers) and dependencies
  - `layout.rs`, `scc.rs`, `graph_reach.rs` — row assignment: blockers above
    the tasks they block, cycles kept together, input order otherwise
  - `calendar.rs` — the date range and day arithmetic (chrono behind small
    trusted wrappers)
  - `render.rs` — the input limits the entry points enforce and the refusals
    they answer with
  - `error.rs` — the error record, its JSON form, and the proof that the JSON
    reads back as the code and message
  - `display_list/` — the renderer-neutral chart description, its constants,
    and the builder's exact decisions (label shortening, tier colours,
    windows, weekly grid, today marker, dependency arrow routes)
  - `backend/` — SVG text, the Canvas command buffer and the native draw list;
    `markup_scan.rs` proves that the SVG markup names only the attributes the
    renderer writes
  - `bench_fixtures.rs` — deterministic benchmark inputs
  - `text.rs` — decimal numbers and words appended to strings
- `tests/` — tests of the library, run against the real outside crates
- `app/` — the unverified shell: JSON parsing, the floating-point chart
  geometry, and the Wasm entry points
