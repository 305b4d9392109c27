use quasar_render::streaming::{LoadedAssetData, ResidencyState, StreamingAssetKind, StreamingPool, MAX_IN_FLIGHT};

fn loaded(path: &[u8], kind: StreamingAssetKind, bytes: u64) -> LoadedAssetData {
    LoadedAssetData { path: path.to_vec(), kind, data: vec![7; bytes as usize], gpu_bytes: bytes }
}

#[test]
fn requested_asset_loads_then_becomes_resident() {
    let mut pool = StreamingPool::with_budgets(1000, 500);
    assert_eq!(pool.state(b"a.png"), ResidencyState::NotResident);
    assert!(pool.request(b"a.png", StreamingAssetKind::Texture));
    assert_eq!(pool.state(b"a.png"), ResidencyState::Loading);
    assert!(!pool.request(b"a.png", StreamingAssetKind::Texture));
    let out = pool.drain_completed(vec![loaded(b"a.png", StreamingAssetKind::Texture, 64)]);
    assert_eq!(out.len(), 1);
    assert_eq!(out[0].0, b"a.png".to_vec());
    assert_eq!(out[0].1, StreamingAssetKind::Texture);
    assert_eq!(out[0].2.len(), 64);
    assert_eq!(pool.state(b"a.png"), ResidencyState::Resident);
    assert_eq!(pool.texture_usage(), (64, 1000));
    assert_eq!(pool.mesh_usage(), (0, 500));
}

#[test]
fn empty_drain_changes_nothing() {
    let mut pool = StreamingPool::with_budgets(1000, 500);
    assert!(pool.request(b"m.bin", StreamingAssetKind::Mesh));
    pool.drain_completed(vec![loaded(b"m.bin", StreamingAssetKind::Mesh, 30)]);
    let out = pool.drain_completed(Vec::new());
    assert!(out.is_empty());
    assert_eq!(pool.state(b"m.bin"), ResidencyState::Resident);
    assert_eq!(pool.mesh_usage(), (30, 500));
    assert_eq!(pool.texture_usage(), (0, 1000));
}

#[test]
fn untracked_load_is_returned_but_not_charged() {
    let mut pool = StreamingPool::new();
    let out = pool.drain_completed(vec![loaded(b"x", StreamingAssetKind::Texture, 10)]);
    assert_eq!(out.len(), 1);
    assert_eq!(pool.state(b"x"), ResidencyState::NotResident);
    assert_eq!(pool.texture_usage().0, 0);
}

#[test]
fn over_budget_request_evicts_least_recently_used() {
    let mut pool = StreamingPool::with_budgets(100, 100);
    assert!(pool.request(b"old", StreamingAssetKind::Texture));
    pool.begin_frame();
    assert!(pool.request(b"new", StreamingAssetKind::Texture));
    pool.drain_completed(vec![
        loaded(b"old", StreamingAssetKind::Texture, 60),
        loaded(b"new", StreamingAssetKind::Texture, 50),
    ]);
    assert_eq!(pool.texture_usage().0, 110);
    pool.begin_frame();
    assert!(pool.request(b"third", StreamingAssetKind::Texture));
    assert_eq!(pool.state(b"old"), ResidencyState::PendingEviction);
    assert_eq!(pool.state(b"new"), ResidencyState::Resident);
    assert_eq!(pool.texture_usage().0, 50);
}

#[test]
fn loads_are_throttled() {
    let mut pool = StreamingPool::new();
    for i in 0..MAX_IN_FLIGHT {
        assert!(pool.request(&[b'a', i as u8], StreamingAssetKind::Mesh));
    }
    assert!(!pool.request(b"one too many", StreamingAssetKind::Mesh));
    assert_eq!(pool.tracked_kind(b"one too many"), None);
    assert_eq!(pool.tracked_kind(&[b'a', 0]), Some(StreamingAssetKind::Mesh));
}
