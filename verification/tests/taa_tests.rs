use quasar_render::taa::{halton_jitter, jitter_for_frame, JITTER_UNITS_PER_PIXEL, TAA_JITTER_SAMPLES};

fn sample(i: usize) -> (f32, f32) {
    let (x, y) = halton_jitter(i);
    (x as f32 / JITTER_UNITS_PER_PIXEL as f32, y as f32 / JITTER_UNITS_PER_PIXEL as f32)
}

#[test]
fn jitter_sequence_stays_bounded() {
    for i in 0..TAA_JITTER_SAMPLES * 3 {
        let (hx, hy) = sample(i % TAA_JITTER_SAMPLES);
        assert!(hx.abs() <= 0.5, "hx out of range: {hx}");
        assert!(hy.abs() <= 0.5, "hy out of range: {hy}");
    }
}

#[test]
fn halton_no_duplicates() {
    for i in 0..TAA_JITTER_SAMPLES {
        for j in (i + 1)..TAA_JITTER_SAMPLES {
            let (ax, ay) = sample(i);
            let (bx, by) = sample(j);
            assert!((ax - bx).abs() > 1e-6 || (ay - by).abs() > 1e-6, "duplicate jitter at {i} and {j}");
        }
    }
}

#[test]
fn jitter_table_matches_six_decimal_values() {
    assert_eq!(sample(0), (0.0, -0.333333));
    assert_eq!(sample(1), (-0.5, 0.333333));
    assert_eq!(sample(15), (-0.34375, -0.074074));
}

#[test]
fn jitter_wraps_every_sixteen_frames() {
    assert_eq!(jitter_for_frame(3), halton_jitter(3));
    assert_eq!(jitter_for_frame(19), halton_jitter(3));
    assert_eq!(jitter_for_frame(32), halton_jitter(0));
}
