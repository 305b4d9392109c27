use quasar_render::pipeline_cache::PipelineCache;
use quasar_render::occlusion::{hiz_build_plan, indirect_args, DeviceFeatures, DrawIndexedIndirectArgs, IndirectDrawRange, MultiDrawIndirectCount};
use quasar_render::rt::{blas_size_estimate, tlas_buffer_size};
use quasar_render::particle::SortingDef;
use quasar_render::pipeline_cache::{next_layout_id, LayoutIdSource};
use quasar_render::reflection_probe::ReflectionProbeSystem;
use quasar_render::render_plugin::{GpuAssetSyncSystem, RenderPlugin, RenderSystemKind};
use quasar_render::renderer::{RenderConfig, UniformRingState};
use quasar_render::staging_belt::{padded_bytes_per_row, staging_size, StagingBelt, StagingSlot};
use quasar_render::terrain::{chrono_timestamp, timestamp_text, TerrainBlendMode, TerrainSplatmap};
use quasar_render::terrain_gen::{droplet_random_bits, PerlinNoise};

#[test]
fn uniform_splatmap_weights_layer_zero() {
    let m = TerrainSplatmap::uniform(3);
    assert_eq!(m.resolution, 3);
    assert_eq!(m.data.len(), 9);
    assert!(m.data.iter().all(|t| *t == [255, 0, 0, 0]));
    assert_eq!(TerrainBlendMode::default(), TerrainBlendMode::Linear);
}

#[test]
fn timestamps_are_seconds_with_z() {
    assert_eq!(timestamp_text(0), "0Z");
    assert_eq!(timestamp_text(1700000000), "1700000000Z");
    let now = chrono_timestamp();
    assert!(now.ends_with('Z'));
    assert!(now[..now.len() - 1].chars().all(|c| c.is_ascii_digit()));
}

#[test]
fn perlin_table_is_a_doubled_permutation() {
    let g = PerlinNoise::new(42);
    let mut seen = [false; 256];
    for x in 0..256usize {
        let v = g.corner_hash(x, 0);
        let w = g.corner_hash(x + 256, 0);
        assert_eq!(v, w);
    }
    for x in 0..256usize {
        // table[table[x] + 0] visits every table entry as x runs over a permutation
        seen[g.corner_hash(x, 0) as usize] = true;
    }
    assert!(seen.iter().all(|&b| b));
    let h = PerlinNoise::new(7);
    let differs = (0..256usize).any(|x| h.corner_hash(x, 0) != g.corner_hash(x, 0));
    assert!(differs);
}

#[test]
fn hiz_plan_halves_extents() {
    let plan = hiz_build_plan(16, 10, 5);
    assert_eq!(plan.len(), 4);
    assert_eq!(plan[0].params.dims, [16, 10, 8, 5]);
    assert_eq!(plan[1].params.dims, [8, 5, 4, 2]);
    assert_eq!(plan[3].params.dims, [2, 1, 1, 1]);
    assert_eq!((plan[0].groups_x, plan[0].groups_y), (1, 1));
    assert_eq!(plan[3].mip, 4);
    assert!(hiz_build_plan(16, 16, 0).is_empty());
    assert_eq!(hiz_build_plan(100, 100, 2)[0].groups_x, 7);
}

#[test]
fn multi_draw_support_follows_features() {
    let of = |f: wgpu::Features| DeviceFeatures { words: f.bits().0 };
    assert!(!MultiDrawIndirectCount::new(of(wgpu::Features::empty())).supported);
    assert!(MultiDrawIndirectCount::new(of(wgpu::Features::MULTI_DRAW_INDIRECT_COUNT)).supported);
    assert!(!MultiDrawIndirectCount::new(of(wgpu::Features::all() - wgpu::Features::MULTI_DRAW_INDIRECT_COUNT)).supported);
    let args = DrawIndexedIndirectArgs { index_count: 3, instance_count: 0, first_index: 0, base_vertex: -1, first_instance: 0 };
    assert_eq!(args.base_vertex, -1);
}

#[test]
fn ring_buffer_aligns_and_wraps() {
    let mut ring = UniformRingState::new(256);
    assert_eq!(ring.allocate(10, 16), 0);
    assert_eq!(ring.allocate(10, 16), 16);
    assert_eq!(ring.allocate(100, 64), 64);
    assert_eq!(ring.allocate(100, 64), 0);
    assert_eq!(ring.allocate(8, 8), 0);
    assert_eq!(ring.allocate(8, 8), 8);
    ring.begin_frame();
}

#[test]
fn staging_rows_are_padded() {
    assert_eq!(padded_bytes_per_row(1), 256);
    assert_eq!(padded_bytes_per_row(64), 256);
    assert_eq!(padded_bytes_per_row(65), 512);
    assert_eq!(staging_size(65, 3), 1536);
}

#[test]
fn staging_belt_reuses_chunks_first_fit() {
    let mut belt = StagingBelt::new(100);
    assert_eq!(belt.reserve(200), StagingSlot { chunk: 0, offset: 0, new_chunk: true });
    assert_eq!(belt.reserve(100), StagingSlot { chunk: 1, offset: 0, new_chunk: true });
    assert_eq!(belt.reserve(100), StagingSlot { chunk: 1, offset: 100, new_chunk: false });
    assert_eq!(belt.reserve(56), StagingSlot { chunk: 0, offset: 200, new_chunk: false });
    belt.finish();
    assert_eq!(belt.reserve(1), StagingSlot { chunk: 0, offset: 0, new_chunk: true });
}

#[test]
fn layout_ids_count_up_from_one() {
    let mut src = LayoutIdSource::new();
    assert_eq!(next_layout_id(&mut src), 1);
    assert_eq!(next_layout_id(&mut src), 2);
    assert_eq!(next_layout_id(&mut src), 3);
}

#[test]
fn plugin_defaults_and_systems() {
    let p = RenderPlugin::default();
    assert!(p.particles_enabled && p.asset_sync_enabled);
    assert_eq!(p.systems(), vec![RenderSystemKind::RenderSync, RenderSystemKind::ParticleUpdate, RenderSystemKind::GpuAssetSync]);
    let q = RenderPlugin { particles_enabled: false, asset_sync_enabled: true };
    assert_eq!(q.systems(), vec![RenderSystemKind::RenderSync, RenderSystemKind::GpuAssetSync]);
    let mut sync = GpuAssetSyncSystem::new();
    sync.queue_reload(3, "a.png".to_string());
    sync.queue_reload(4, "b.png".to_string());
    assert_eq!(sync.flush_reloads(), 2);
    assert_eq!(sync.flush_reloads(), 0);
}

#[test]
fn render_config_desktop_defaults() {
    let c = RenderConfig::default();
    assert_eq!(c.msaa_sample_count, 1);
    assert!(c.gpu_driven_culling && c.taa_enabled && c.ssgi_enabled);
    assert!(!c.deferred_enabled);
}

#[test]
fn reflection_probe_keeps_its_callback() {
    let mut calls = 0;
    let mut sys = ReflectionProbeSystem::new(|n: u32| n + 1);
    calls += (sys.render_face_mut())(1);
    assert_eq!(calls, 2);
    assert_eq!(SortingDef::Distance, SortingDef::Distance);
}

#[test]
fn blas_size_counts_triangles_with_floor_and_header() {
    assert_eq!(blas_size_estimate(0, 0), 1024 + 256);
    assert_eq!(blas_size_estimate(300, 0), 100 * 64 + 256);
    assert_eq!(blas_size_estimate(9, 300), 100 * 64 + 256);
    assert_eq!(blas_size_estimate(3000, 30), 1024 + 256);
    assert_eq!(tlas_buffer_size(4), 4 * 128 + 512);
}

#[test]
fn indirect_args_start_without_instances() {
    let draws = [
        IndirectDrawRange { index_count: 36, first_index: 0, base_vertex: 0 },
        IndirectDrawRange { index_count: 12, first_index: 36, base_vertex: -4 },
    ];
    let args = indirect_args(&draws);
    assert_eq!(args.len(), 2);
    assert_eq!(
        args[1],
        DrawIndexedIndirectArgs { index_count: 12, instance_count: 0, first_index: 36, base_vertex: -4, first_instance: 0 }
    );
    assert_eq!(args[0].index_count, 36);
}

#[test]
fn multi_draw_indirect_count_reads_bit_fifteen() {
    assert!(MultiDrawIndirectCount::new(DeviceFeatures { words: [1u64 << 15, 0] }).supported);
    assert!(MultiDrawIndirectCount::new(DeviceFeatures { words: [u64::MAX, 0] }).supported);
    assert!(!MultiDrawIndirectCount::new(DeviceFeatures { words: [!(1u64 << 15), u64::MAX] }).supported);
    assert!(!MultiDrawIndirectCount::new(DeviceFeatures { words: [0, 1u64 << 15] }).supported);
    assert_eq!(wgpu::Features::MULTI_DRAW_INDIRECT_COUNT.bits().0, [1u64 << 15, 0]);
}

#[test]
fn pipeline_cache_compiles_once_until_invalidated() {
    let mut cache: PipelineCache<String> = PipelineCache::new();
    assert!(cache.is_empty());
    let mut compiles = 0;
    let first = cache
        .get_or_create(b"shaders/pbr.wgsl", || {
            compiles += 1;
            "pbr v1".to_string()
        })
        .clone();
    assert_eq!(first, "pbr v1");
    let again = cache
        .get_or_create(b"shaders/pbr.wgsl", || {
            compiles += 1;
            "pbr v2".to_string()
        })
        .clone();
    assert_eq!(again, "pbr v1");
    assert_eq!(compiles, 1);
    assert_eq!(cache.len(), 1);
    assert!(cache.invalidate(b"shaders/pbr.wgsl"));
    assert!(!cache.invalidate(b"shaders/pbr.wgsl"));
    assert!(!cache.contains(b"shaders/pbr.wgsl"));
    let rebuilt = cache.get_or_create(b"shaders/pbr.wgsl", || "pbr v3".to_string()).clone();
    assert_eq!(rebuilt, "pbr v3");
}

#[test]
fn pipeline_cache_rebuilds_only_cached_paths() {
    let mut cache: PipelineCache<String> = PipelineCache::default();
    assert!(!cache.rebuild(b"missing.wgsl", |old: &String| format!("{old}!")));
    assert!(cache.is_empty());
    cache.get_or_create(b"a.wgsl", || "a".to_string());
    cache.get_or_create(b"b.wgsl", || "b".to_string());
    assert!(cache.rebuild(b"a.wgsl", |old: &String| format!("{old}+")));
    assert_eq!(cache.get(b"a.wgsl").map(|s| s.as_str()), Some("a+"));
    assert_eq!(cache.get(b"b.wgsl").map(|s| s.as_str()), Some("b"));
    let mut paths = cache.shader_paths();
    paths.sort();
    assert_eq!(paths, vec![b"a.wgsl".to_vec(), b"b.wgsl".to_vec()]);
}

#[test]
fn droplet_random_source_steps_the_generator() {
    assert_eq!(droplet_random_bits(1000), (1103515257345, 28322));
    assert_eq!(droplet_random_bits(u64::MAX), (18446744072606048716, 15929));
}
