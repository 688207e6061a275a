use vstd::prelude::*;

verus! {

/// The cross product.
pub trait Cross: Sized {
    fn cross(self, other: Self) -> Self;
}

/// The vector of the same direction and unit length.
pub trait Normalize: Sized {
    fn normalize(self) -> Self;
}

/// The additive identity.
pub trait Zero: Sized {
    fn zero() -> Self;
}

/// A pair of unit vectors that, with `self`, forms an orthonormal basis.
pub trait OrthonormalBasis: Sized {
    fn orthonormal_basis(&self) -> (Self, Self);
}

/// An item of a scene file that other items refer to by name.
pub trait HasName {
    fn name(&self) -> String;
}

} // verus!
