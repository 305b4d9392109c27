use quasar_render::batching::batch_by_key;
use quasar_render::radiance_grid::{grid_to_flat, probe_count_of, trilinear_probes};
use quasar_render::sprite_anim::{next_frame, play_step, PlayStep};

#[test]
fn probe_grid_flat_layout() {
    let res = [32u32, 16, 32];
    assert_eq!(probe_count_of(res), 32 * 16 * 32);
    assert_eq!(grid_to_flat(res, 0, 0, 0), 0);
    assert_eq!(grid_to_flat(res, 1, 0, 0), 1);
    assert_eq!(grid_to_flat(res, 0, 1, 0), 32);
    assert_eq!(grid_to_flat(res, 0, 0, 1), 512);
    assert_eq!(grid_to_flat(res, 31, 15, 31), 32 * 16 * 32 - 1);
}

#[test]
fn trilinear_probes_clamp_at_the_far_edge() {
    let res = [4u32, 4, 4];
    assert_eq!(trilinear_probes(res, 1, 1, 1), vec![21, 22, 25, 26, 37, 38, 41, 42]);
    assert_eq!(trilinear_probes(res, 3, 3, 3), vec![63; 8]);
}

#[test]
fn frames_advance_loop_or_stop() {
    assert_eq!(next_frame(0, 3, false), (1, true));
    assert_eq!(next_frame(2, 3, true), (0, true));
    assert_eq!(next_frame(2, 3, false), (2, false));
    assert_eq!(next_frame(0, 1, true), (0, true));
}

#[test]
fn play_switches_resumes_or_ignores() {
    assert_eq!(play_step(false, false), PlayStep::Ignore);
    assert_eq!(play_step(true, true), PlayStep::Resume);
    assert_eq!(play_step(true, false), PlayStep::Restart);
}

#[test]
fn objects_are_batched_by_key_in_first_appearance_order() {
    let keys = [(1u64, 2u64, 0u64), (3, 2, 0), (1, 2, 0), (1, 2, 1), (3, 2, 0)];
    let (ks, ms) = batch_by_key(&keys);
    assert_eq!(ks, vec![(1, 2, 0), (3, 2, 0), (1, 2, 1)]);
    assert_eq!(ms, vec![vec![0, 2], vec![1, 4], vec![3]]);
    let (ks, ms) = batch_by_key(&[]);
    assert!(ks.is_empty() && ms.is_empty());
}
