use quasar_render::pcss::PcssQuality;

#[test]
fn pcss_quality_samples() {
    assert_eq!(PcssQuality::Low.blocker_search_samples(), 8);
    assert_eq!(PcssQuality::Medium.blocker_search_samples(), 16);
    assert_eq!(PcssQuality::High.blocker_search_samples(), 32);
    assert_eq!(PcssQuality::Ultra.blocker_search_samples(), 64);
}

#[test]
fn pcf_samples_match_blocker_samples() {
    for q in [PcssQuality::Low, PcssQuality::Medium, PcssQuality::High, PcssQuality::Ultra] {
        assert_eq!(q.pcf_samples(), q.blocker_search_samples());
    }
}

#[test]
fn pcss_quality_default_is_medium() {
    assert_eq!(PcssQuality::default(), PcssQuality::Medium);
}
