# arrowtiles

Builds `.arrowtiles` archives — PMTiles archives whose tiles are Arrow IPC
streams — from large point sets (star catalogs), for a WebGPU scatterplot
that loads tiles with HTTP range requests.

The pipeline has two passes:

1. **Bucketer.** Points arrive sorted by brightness. Each point claims the
   voxel it falls into on the lowest zoom level where that voxel is still
   free; when all are taken it stays on the deepest level. The point then
   gets its zoom, its PMTiles tile id (`(4^z - 1) / 3` plus the Hilbert
   index of its cell) and its 16-bit offset inside the tile. Output is
   partitioned by zoom level.
2. **Packer.** Points sorted by tile id are grouped into tiles, each tile is
   encoded as an Arrow IPC stream without the schema message (which is kept
   once, Base64-encoded, in the archive metadata), and written to the
   archive in chunks.

A DuckDB extension (`hilbert_xy`, `hilbert_normalized`) and a Python module
(`arrowtiles_core`) expose the same computations.

## Layout

- `src/` — the verified library: tile-id arithmetic (`tile_id`), Hilbert cell
  indexing (`hilbert`), voxel bucketing (`voxel`, `occupancy`), zoom
  partitioning (`partition`), tile runs and grouping (`runs`, `grouper`),
  IPC framing and tile coordinates (`framing`), field plans (`schema`),
  archive metadata (`metadata`) and the row rules of the DuckDB functions
  (`udf`).
- `app/` — the programs around it: the stream engine (`--bucketer`,
  `--packer`), the standalone Parquet bucketer and packer, the DuckDB
  extension and the Python module, with the floating-point geometry.
- `tests/` — tests of the library on concrete values.
