//! Pixel layouts on the way out of the GPU. A Metal texture reads back as BGRA
//! bytes; frames are written as RGB.

use vstd::prelude::*;

verus! {

/// Byte `index` of the RGB frame held in `bgra`: pixel `index / 3`, with the
/// channel order reversed and the alpha byte dropped.
pub open spec fn rgb_byte(bgra: Seq<u8>, index: int) -> u8 {
    bgra[4 * (index / 3) + 2 - index % 3]
}

/// The RGB bytes of a BGRA texture read back from the GPU. A trailing partial
/// pixel is ignored.
pub fn rgb_from_bgra(bgra: &[u8]) -> (rgb: Vec<u8>)
    ensures
        rgb@.len() == 3 * (bgra@.len() / 4),
        forall|index: int| 0 <= index < rgb@.len() ==> #[trigger] rgb@[index] == rgb_byte(bgra@, index),
{
    let mut rgb: Vec<u8> = Vec::new();
    let pixels = bgra.len() / 4;
    let mut pixel: usize = 0;
    while pixel < pixels
        invariant
            pixels == bgra@.len() / 4,
            pixel <= pixels,
            rgb@.len() == 3 * pixel,
            forall|index: int| 0 <= index < rgb@.len() ==> #[trigger] rgb@[index] == rgb_byte(bgra@, index),
        decreases pixels - pixel,
    {
        assert(4 * pixel + 3 < bgra.len()) by (nonlinear_arith)
            requires
                pixel < pixels,
                pixels == bgra.len() / 4,
        ;
        let base = 4 * pixel;
        let ghost before = rgb@;
        rgb.push(bgra[base + 2]);
        rgb.push(bgra[base + 1]);
        rgb.push(bgra[base]);
        assert forall|index: int| 0 <= index < rgb@.len() implies #[trigger] rgb@[index]
            == rgb_byte(bgra@, index) by {
            if index >= before.len() {
                assert(index / 3 == pixel as int);
                assert(index % 3 == index - 3 * pixel);
            } else {
                assert(rgb@[index] == before[index]);
            }
        }
        pixel = pixel + 1;
    }
    rgb
}

} // verus!
