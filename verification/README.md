# ekko

Surface-height scanning and chunk scheduling for voxel terrain, written in Verus.

The library (`src/`) holds the logic, each function with a contract that Verus proves:

- `surface` — the adaptive scan of one 16 x 16 chunk. The scan asks a sampler about one
  block at a time (`SamplerRequest`), searching each noise cell only in a band of layers
  around a running estimate of the surface; the contract of `generate` states which blocks
  were asked, in what order, and that each column's surface is the first solid block from
  the top of its band.
- `scan_requests` — every request the scan makes, in order, as a function of what it
  learned; `generate` makes exactly these.
- `sampler_log` — the sampler together with the record of every request made of it.
- `block_fill` — filling every block of a chunk through the same sampler, with the exact
  sequence of requests, each block filled once from within its own cell.
- `grid`, `dist_sort`, `radius` — the chunks of a circular or square ring around a center,
  nearest first, and how many there are.
- `batching`, `batch_run`, `batch_config` — cutting a run of chunks into batches, the
  chunks of each batch, and the decisions of a run over batches.
- `chunk_queue` — queueing height maps for batched storage and their table rows.
- `zarr_chunks` — the chunk grid of a stored height array, chunk sizes, and grouping
  chunks into batches that fit a memory budget.
- `generation_config`, `location_config`, `cli`, `shutdown` — settings, the command line,
  and the shutdown flag with the index a run has reached.

`app/` is the program around it: command line, configuration files, the pumpkin noise
sampler that answers the scan, threads, and storage (PostgreSQL, Zarr, CUDA).
