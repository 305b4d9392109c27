use quasar_render::svt::{
    parse_feedback, FeedbackEntry, GpuFeedbackTexel, PhysicalSlot, SvtSystem, TilePool, TileStreamer,
    VirtualTexture2D, VirtualTileId,
};
use std::path::PathBuf;

#[test]
fn tile_pool_allocate_and_lookup() {
    let mut pool = TilePool::new(4);
    let tile = VirtualTileId { mip: 0, x: 0, y: 0 };
    let slot = pool.allocate(tile, 0);
    assert_eq!(pool.lookup(&tile), Some(slot));
}

#[test]
fn tile_pool_evicts_lru() {
    let mut pool = TilePool::new(4);
    let total = pool.max_tiles;
    for i in 0..total {
        pool.allocate(VirtualTileId { mip: 0, x: i, y: 0 }, i as u64);
    }
    assert_eq!(pool.free_slot_count(), 0);
    let new_tile = VirtualTileId { mip: 0, x: 999, y: 0 };
    pool.allocate(new_tile, total as u64);
    assert!(pool.lookup(&new_tile).is_some());
    assert!(pool.lookup(&VirtualTileId { mip: 0, x: 0, y: 0 }).is_none());
}

#[test]
fn page_table_build() {
    let mut sys = SvtSystem {
        pool: TilePool::new(16),
        streamer: TileStreamer::new(PathBuf::from("/tmp")),
        frame: 0,
        virtual_tiles_x: 4,
        virtual_tiles_y: 4,
    };
    let tile = VirtualTileId { mip: 0, x: 1, y: 2 };
    sys.pool.allocate(tile, 0);
    let table = sys.build_page_table();
    let idx = (2 * 4 + 1) as usize;
    assert_eq!(table[idx].resident, 1);
}

#[test]
fn tile_pool_slots_are_laid_out_row_major() {
    let pool = TilePool::new(16);
    assert_eq!(pool.tiles_per_row, 4);
    assert_eq!(pool.slot_to_xy(PhysicalSlot(0)), (0, 0));
    assert_eq!(pool.slot_to_xy(PhysicalSlot(5)), (1, 1));
    assert_eq!(pool.slot_to_xy(PhysicalSlot(7)), (3, 1));
}

#[test]
fn tile_pool_rounds_row_length_up() {
    let pool = TilePool::new(5);
    assert_eq!(pool.tiles_per_row, 3);
    assert_eq!(pool.max_tiles, 9);
    assert_eq!(pool.free_slot_count(), 9);
}

#[test]
fn reallocating_a_resident_tile_keeps_its_slot() {
    let mut pool = TilePool::new(4);
    let tile = VirtualTileId { mip: 1, x: 2, y: 3 };
    let a = pool.allocate(tile, 0);
    let b = pool.allocate(tile, 5);
    assert_eq!(a, b);
    assert_eq!(pool.free_slot_count(), 3);
}

#[test]
fn tile_file_names_name_mip_and_position() {
    let name = TileStreamer::tile_file_name(VirtualTileId { mip: 2, x: 10, y: 7 });
    assert_eq!(name, "tile_10_7_m2.raw");
}

#[test]
fn placeholder_tile_is_mid_grey() {
    let data = TileStreamer::placeholder_tile();
    assert_eq!(data.len(), 128 * 128 * 4);
    assert!(data.iter().all(|&b| b == 128));
}

#[test]
fn streamer_requests_each_tile_once() {
    let mut s = TileStreamer::new(PathBuf::from("/tmp"));
    let tile = VirtualTileId { mip: 0, x: 1, y: 1 };
    assert!(s.request(tile));
    assert!(!s.request(tile));
    s.complete(tile, vec![1, 2, 3]);
    let done = s.drain_completed();
    assert_eq!(done.len(), 1);
    assert_eq!(done[0].0, tile);
    assert_eq!(done[0].1, vec![1, 2, 3]);
    assert!(s.request(tile));
}

#[test]
fn feedback_requests_missing_tiles_and_uploads_them() {
    let mut sys = SvtSystem::new(512, 512, PathBuf::from("/tmp"), Some(16));
    let tile = VirtualTileId { mip: 0, x: 1, y: 0 };
    let to_load = sys.process_feedback(&[FeedbackEntry { tile }, FeedbackEntry { tile }]);
    assert_eq!(to_load, vec![tile]);
    sys.streamer.complete(tile, vec![9; 4]);
    let uploads = sys.upload_ready_tiles();
    assert_eq!(uploads.len(), 1);
    assert_eq!(uploads[0].0, tile);
    assert_eq!(sys.pool.lookup(&tile), Some(uploads[0].1));
    sys.advance_frame();
    assert_eq!(sys.frame, 1);
}

#[test]
fn last_upload_is_resident_and_a_second_upload_is_empty() {
    let mut sys = SvtSystem::new(512, 512, PathBuf::from("/tmp"), Some(4));
    let a = VirtualTileId { mip: 0, x: 0, y: 0 };
    let b = VirtualTileId { mip: 0, x: 2, y: 1 };
    assert_eq!(sys.process_feedback(&[FeedbackEntry { tile: a }, FeedbackEntry { tile: b }]), vec![a, b]);
    sys.streamer.complete(a, vec![1]);
    sys.streamer.complete(b, vec![2]);
    let uploads = sys.upload_ready_tiles();
    assert_eq!(uploads.len(), 2);
    assert_eq!((uploads[0].0, uploads[1].0), (a, b));
    assert_ne!(uploads[0].1, uploads[1].1);
    assert_eq!(sys.pool.lookup(&b), Some(uploads[1].1));
    assert!(sys.upload_ready_tiles().is_empty());
    let slot_a = sys.pool.lookup(&a);
    assert_eq!(sys.process_feedback(&[FeedbackEntry { tile: a }]), vec![]);
    assert_eq!(sys.pool.lookup(&a), slot_a);
}

#[test]
fn parse_feedback_skips_empty_texels() {
    let texels = [
        GpuFeedbackTexel { tile_x: 0, tile_y: 0, mip: 0, _pad: 0 },
        GpuFeedbackTexel { tile_x: 2, tile_y: 3, mip: 1, _pad: 1 },
    ];
    let entries = parse_feedback(&texels);
    assert_eq!(entries.len(), 1);
    assert_eq!(entries[0].tile, VirtualTileId { mip: 1, x: 2, y: 3 });
}

#[test]
fn virtual_texture_mip_chain() {
    let vt = VirtualTexture2D::new(7, 1024, 512, PathBuf::from("/tmp"));
    assert_eq!(vt.mip_levels, 11);
    assert_eq!(vt.tiles_at_mip(0), (8, 4));
    assert_eq!(vt.tiles_at_mip(3), (1, 1));
}

#[test]
fn page_table_skips_tiles_outside_the_virtual_extent() {
    let mut sys = SvtSystem {
        pool: TilePool::new(16),
        streamer: TileStreamer::new(PathBuf::from("/tmp")),
        frame: 0,
        virtual_tiles_x: 4,
        virtual_tiles_y: 4,
    };
    sys.pool.allocate(VirtualTileId { mip: 0, x: 5, y: 0 }, 0);
    sys.pool.allocate(VirtualTileId { mip: 1, x: 1, y: 0 }, 0);
    let table = sys.build_page_table();
    assert_eq!(table.len(), 16);
    assert!(table.iter().all(|e| e.resident == 0));
}
