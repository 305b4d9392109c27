//! Frame-independent rendering logic of the Quasar renderer: tile pools,
//! streaming budgets, render-graph scheduling, shader-graph code generation,
//! meshlet clustering and related bookkeeping, each with its contract.

pub mod pcss;
pub mod decimal;
pub mod svt;
pub mod assoc;
pub mod render_graph;
pub mod streaming;
pub mod meshlet;
pub mod tilemap;
pub mod terrain;
pub mod terrain_gen;
pub mod shader_graph;
pub mod taa;
pub mod occlusion;
pub mod particle;
pub mod render_plugin;
pub mod renderer;
pub mod pipeline_cache;
pub mod reflection_probe;
pub mod staging_belt;
pub mod rt;
pub mod radiance_grid;
pub mod sprite_anim;
pub mod batching;
