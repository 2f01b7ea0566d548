use psychedelic::render::rgb_from_bgra;

#[test]
fn readback_swaps_blue_and_red_and_drops_alpha() {
    assert_eq!(
        rgb_from_bgra(&[10, 20, 30, 255, 1, 2, 3, 0]),
        vec![30, 20, 10, 3, 2, 1]
    );
}

#[test]
fn readback_ignores_a_trailing_partial_pixel() {
    assert_eq!(rgb_from_bgra(&[10, 20, 30, 255, 7, 7]), vec![30, 20, 10]);
    assert!(rgb_from_bgra(&[]).is_empty());
}
