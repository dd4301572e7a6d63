use vstd::prelude::*;

verus! {

/// A colour, one 16-bit channel each for red, green and blue.
#[allow(non_snake_case)]
pub struct RGB {
    Red: u16,
    Green: u16,
    Blue: u16,
}

/// Width and height of a Full HD screen.
#[allow(non_upper_case_globals)]
pub const FullHdDims: [usize; 2] = [1920, 1080];

/// A handle on a screen.
pub struct ScreenHandle();

}
