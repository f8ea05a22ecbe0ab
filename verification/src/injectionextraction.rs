use vstd::prelude::*;

verus! {

/// Filler byte written once the payload is exhausted, so that the tail of the
/// final frame is never garbage.
pub const NULL_CHAR: u8 = 0u8;

/// Represent a single pixel of color (R, G, B).
#[derive(Clone, Copy, PartialEq, Eq, Structural, Debug)]
pub struct Color {
    pub r: u8,
    pub g: u8,
    pub b: u8,
}

/// The color that carries one header or black-and-white content bit:
/// solid white for true, solid black for false.
pub open spec fn bit_to_color(bit: bool) -> Color {
    if bit {
        Color { r: 255, g: 255, b: 255 }
    } else {
        Color { r: 0, g: 0, b: 0 }
    }
}

} // verus!
