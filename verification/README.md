# quasar_render

The frame-independent logic of a wgpu renderer, written in Verus with
contracts and proofs:

- `render_graph` (with `aliasing`): pass scheduling (Kahn's algorithm,
  ready passes queued in declaration order),
  validation of attachment reads, resource transitions and barriers, queue
  splitting, dependency inference, attachment lifetimes and texture
  aliasing.
- `shader_graph` (with `topo`): node graphs compiled to WGSL, validation
  diagnostics, the compile cache and material graphs.
- `svt`, `streaming`: virtual-texture tile pool with LRU eviction, page
  tables, feedback processing; asset streaming under memory budgets.
- `meshlet`: meshlet clustering, mesh simplification and LOD chain packing.
- `pipeline_cache`: which shader paths hold a compiled pipeline, so that hot
  reload invalidates and rebuilds only what changed.
- `tilemap`, `terrain`, `terrain_gen`, `taa`, `occlusion`, `staging_belt`,
  `renderer`, `radiance_grid`, `rt`, `sprite_anim`, `batching`, `pcss`, `particle`,
  `render_plugin`, `reflection_probe`: smaller pieces of
  bookkeeping and arithmetic.

`app/` holds what the verifier does not see: serde and bytemuck copies of
the library's records, the floating-point geometry (bounds, jitter in NDC,
noise values, erosion, texture coordinates), and the wgpu calls that carry out the
plans the library computes. `tests/` exercises the library from outside.
