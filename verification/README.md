# turbomap-core

The bookkeeping core of a tiled map renderer, written in Verus with its
contracts proved.

## Layout

- `src/` — the verified library:
  - `tile` — slippy-map tile ids, children, ancestors and containment.
  - `resolve` — best-available coverage of an ideal tile from resident tiles
    (finer detail first, an ancestor backdrop only where nothing finer is
    resident).
  - `cache` — the LRU texture cache with its byte budget and counters.
  - `graph` — the frame graph: pass masks, per-pass records, data-flow
    validation and the schedule of the shared multisampled pass.
  - `layers` — the ordered layer stack and the zoom range its sources serve.
  - `markers` — the marker store: id assignment and circle-layer groups.
  - `batch`, `fb_probe`, `dem`, `capacity`, `error`, `projection`, `lod`,
    `custom`, `map` — draw batching, framebuffer probes, DEM coverage masks,
    capacity constants, error messages and shared value types.
- `tests/` — tests of the library on concrete values.
- `app/` — ordinary Rust around the library: the floating-point camera,
  projections and hit tests, and the GPU side (texture uploads, render
  passes, timestamp queries).
