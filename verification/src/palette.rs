//! Generated color ramps. Continuous rotation through one of these is most of
//! what reads as psychedelic.

use vstd::prelude::*;

verus! {

pub const PALETTE_SIZE: usize = 256;

#[derive(Clone, Debug, PartialEq)]
pub struct Palette {
    pub colors: Vec<[u8; 3]>,
}

/// Byte `index` of the RGBA layout of `colors`: four bytes per color, the
/// three channels followed by full opacity.
pub open spec fn rgba_byte(colors: Seq<[u8; 3]>, index: int) -> u8 {
    let channel = index % 4;
    if channel == 3 {
        255
    } else {
        colors[index / 4][channel]
    }
}

impl Palette {
    /// Flat RGBA bytes, the layout a Metal 1D texture wants.
    pub fn to_rgba_bytes(&self) -> (bytes: Vec<u8>)
        ensures
            bytes@.len() == 4 * self.colors@.len(),
            forall|index: int|
                0 <= index < bytes@.len() ==> #[trigger] bytes@[index] == rgba_byte(
                    self.colors@,
                    index,
                ),
    {
        let mut bytes: Vec<u8> = Vec::new();
        let mut color: usize = 0;
        while color < self.colors.len()
            invariant
                color <= self.colors@.len(),
                bytes@.len() == 4 * color,
                forall|index: int|
                    0 <= index < bytes@.len() ==> #[trigger] bytes@[index] == rgba_byte(
                        self.colors@,
                        index,
                    ),
            decreases self.colors.len() - color,
        {
            let rgb = self.colors[color];
            let ghost before = bytes@;
            bytes.push(rgb[0]);
            bytes.push(rgb[1]);
            bytes.push(rgb[2]);
            bytes.push(255);
            assert forall|index: int| 0 <= index < bytes@.len() implies #[trigger] bytes@[index]
                == rgba_byte(self.colors@, index) by {
                if index >= before.len() {
                    assert(index / 4 == color as int);
                    assert(index % 4 == index - 4 * color);
                } else {
                    assert(bytes@[index] == before[index]);
                }
            }
            color = color + 1;
        }
        bytes
    }
}

} // verus!
