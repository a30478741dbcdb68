use vstd::prelude::*;

verus! {

/// A pixel sample type: 8-bit or high bit depth.
pub trait Pixel: Copy + Sized {
    /// The pixel value that `cast_from` produces for a byte value.
    spec fn spec_cast_from(v: u8) -> Self;

    /// Widens a byte value into this pixel type.
    fn cast_from(v: u8) -> (r: Self)
        ensures
            r == Self::spec_cast_from(v),
    ;
}

impl Pixel for u8 {
    open spec fn spec_cast_from(v: u8) -> u8 {
        v
    }

    fn cast_from(v: u8) -> (r: u8) {
        v
    }
}

impl Pixel for u16 {
    open spec fn spec_cast_from(v: u8) -> u16 {
        v as u16
    }

    fn cast_from(v: u8) -> (r: u16) {
        v as u16
    }
}

} // verus!
