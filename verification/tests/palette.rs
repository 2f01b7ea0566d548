use psychedelic::palette::{Palette, PALETTE_SIZE};

#[test]
fn rgba_bytes_are_opaque_and_four_per_color() {
    let bytes = Palette {
        colors: vec![[255, 255, 255]; PALETTE_SIZE],
    }
    .to_rgba_bytes();
    assert_eq!(bytes.len(), PALETTE_SIZE * 4);
    assert!(bytes.chunks_exact(4).all(|pixel| pixel[3] == 255));
}

#[test]
fn rgba_bytes_keep_each_color_in_order() {
    let palette = Palette {
        colors: vec![[1, 2, 3], [250, 0, 7]],
    };
    assert_eq!(palette.to_rgba_bytes(), vec![1, 2, 3, 255, 250, 0, 7, 255]);
    assert!(Palette { colors: Vec::new() }.to_rgba_bytes().is_empty());
}
