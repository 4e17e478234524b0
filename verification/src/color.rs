//! Colours as red, green and blue intensities.

use crate::scalar::Scalar;
use vstd::prelude::*;

verus! {

/// A colour. The intensities are not held to any range.
#[derive(Clone, Copy, Debug)]
pub struct RGB {
    pub r: Scalar,
    pub g: Scalar,
    pub b: Scalar,
}

impl RGB {
    pub open spec fn spec_black() -> RGB {
        RGB { r: Scalar::spec_zero(), g: Scalar::spec_zero(), b: Scalar::spec_zero() }
    }

    pub open spec fn spec_white() -> RGB {
        RGB { r: Scalar::spec_one(), g: Scalar::spec_one(), b: Scalar::spec_one() }
    }

    pub open spec fn spec_add(self, other: RGB) -> RGB {
        RGB {
            r: self.r.spec_add(other.r),
            g: self.g.spec_add(other.g),
            b: self.b.spec_add(other.b),
        }
    }

    pub open spec fn spec_mul(self, other: RGB) -> RGB {
        RGB {
            r: self.r.spec_mul(other.r),
            g: self.g.spec_mul(other.g),
            b: self.b.spec_mul(other.b),
        }
    }

    pub open spec fn spec_scale(self, k: Scalar) -> RGB {
        RGB { r: self.r.spec_mul(k), g: self.g.spec_mul(k), b: self.b.spec_mul(k) }
    }

    /// No light at all.
    #[verifier::when_used_as_spec(spec_black)]
    pub fn black() -> (c: RGB)
        ensures
            c == RGB::spec_black(),
    {
        RGB { r: Scalar::zero(), g: Scalar::zero(), b: Scalar::zero() }
    }

    /// Full intensity in every channel.
    #[verifier::when_used_as_spec(spec_white)]
    pub fn white() -> (c: RGB)
        ensures
            c == RGB::spec_white(),
    {
        RGB { r: Scalar::one(), g: Scalar::one(), b: Scalar::one() }
    }

    /// The sum, channel by channel.
    pub fn add(self, other: RGB) -> (c: RGB)
        ensures
            c == self.spec_add(other),
    {
        RGB { r: self.r.add(other.r), g: self.g.add(other.g), b: self.b.add(other.b) }
    }

    /// The product, channel by channel.
    pub fn mul(self, other: RGB) -> (c: RGB)
        ensures
            c == self.spec_mul(other),
    {
        RGB { r: self.r.mul(other.r), g: self.g.mul(other.g), b: self.b.mul(other.b) }
    }

    /// Each channel times `k`.
    pub fn scale(self, k: Scalar) -> (c: RGB)
        ensures
            c == self.spec_scale(k),
    {
        RGB { r: self.r.mul(k), g: self.g.mul(k), b: self.b.mul(k) }
    }
}

} // verus!
