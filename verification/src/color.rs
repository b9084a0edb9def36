use vstd::prelude::*;

verus! {

/// A fixed-length vector of `D` scalar components.
#[derive(Debug, Clone, Copy, PartialEq, Eq)]
pub struct Vector<T, const D: usize>(pub [T; D]);

/// An RGBA color with 8-bit channels.
pub type Color = Vector<u8, 4>;

/// Builds a color from its red, green and blue channels; the alpha channel
/// defaults to 1.
pub fn arr_to_color(value: [u8; 3]) -> (c: Color)
    ensures
        c.0[0] == value[0],
        c.0[1] == value[1],
        c.0[2] == value[2],
        c.0[3] == 1,
{
    Vector([value[0], value[1], value[2], 1])
}

/// Builds a color from all four channels at once.
pub fn u8x4_to_color(value: [u8; 4]) -> (c: Color)
    ensures
        c.0 == value,
{
    Vector(value)
}

} // verus!
