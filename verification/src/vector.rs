//! Vectors of three binary32 components.

use crate::scalar::Scalar;
use vstd::prelude::*;

verus! {

/// A point or a direction in space.
#[derive(Clone, Copy, Debug)]
pub struct Vector {
    pub x: Scalar,
    pub y: Scalar,
    pub z: Scalar,
}

impl Vector {
    pub open spec fn spec_add(self, other: Vector) -> Vector {
        Vector {
            x: self.x.spec_add(other.x),
            y: self.y.spec_add(other.y),
            z: self.z.spec_add(other.z),
        }
    }

    pub open spec fn spec_sub(self, other: Vector) -> Vector {
        Vector {
            x: self.x.spec_sub(other.x),
            y: self.y.spec_sub(other.y),
            z: self.z.spec_sub(other.z),
        }
    }

    pub open spec fn spec_mul(self, other: Vector) -> Vector {
        Vector {
            x: self.x.spec_mul(other.x),
            y: self.y.spec_mul(other.y),
            z: self.z.spec_mul(other.z),
        }
    }

    pub open spec fn spec_div(self, other: Vector) -> Vector {
        Vector {
            x: self.x.spec_div(other.x),
            y: self.y.spec_div(other.y),
            z: self.z.spec_div(other.z),
        }
    }

    pub open spec fn spec_scale(self, k: Scalar) -> Vector {
        Vector { x: self.x.spec_mul(k), y: self.y.spec_mul(k), z: self.z.spec_mul(k) }
    }

    pub open spec fn spec_div_scalar(self, k: Scalar) -> Vector {
        Vector { x: self.x.spec_div(k), y: self.y.spec_div(k), z: self.z.spec_div(k) }
    }

    /// The squares of the components, summed from `x` on.
    pub open spec fn spec_magnitude2(self) -> Scalar {
        self.x.spec_mul(self.x).spec_add(self.y.spec_mul(self.y)).spec_add(self.z.spec_mul(self.z))
    }

    pub open spec fn spec_magnitude(self) -> Scalar {
        self.spec_magnitude2().spec_sqrt()
    }

    /// Each component over the magnitude. Of the zero vector no component
    /// is a number.
    pub open spec fn spec_normalize(self) -> Vector {
        self.spec_div_scalar(self.spec_magnitude())
    }

    /// The products of like components, summed from `x` on.
    pub open spec fn spec_dot(self, v: Vector) -> Scalar {
        self.x.spec_mul(v.x).spec_add(self.y.spec_mul(v.y)).spec_add(self.z.spec_mul(v.z))
    }

    /// The vector with these components.
    pub fn new(x: Scalar, y: Scalar, z: Scalar) -> (r: Vector)
        ensures
            r == (Vector { x, y, z }),
    {
        Vector { x, y, z }
    }

    /// The sum, component by component.
    pub fn add(self, other: Vector) -> (r: Vector)
        ensures
            r == self.spec_add(other),
    {
        Vector { x: self.x.add(other.x), y: self.y.add(other.y), z: self.z.add(other.z) }
    }

    /// The difference, component by component.
    pub fn sub(self, other: Vector) -> (r: Vector)
        ensures
            r == self.spec_sub(other),
    {
        Vector { x: self.x.sub(other.x), y: self.y.sub(other.y), z: self.z.sub(other.z) }
    }

    /// The product, component by component.
    pub fn mul(self, other: Vector) -> (r: Vector)
        ensures
            r == self.spec_mul(other),
    {
        Vector { x: self.x.mul(other.x), y: self.y.mul(other.y), z: self.z.mul(other.z) }
    }

    /// The quotient, component by component.
    pub fn div(self, other: Vector) -> (r: Vector)
        ensures
            r == self.spec_div(other),
    {
        Vector { x: self.x.div(other.x), y: self.y.div(other.y), z: self.z.div(other.z) }
    }

    /// Each component times `k`.
    pub fn scale(self, k: Scalar) -> (r: Vector)
        ensures
            r == self.spec_scale(k),
    {
        Vector { x: self.x.mul(k), y: self.y.mul(k), z: self.z.mul(k) }
    }

    /// Each component over `k`.
    pub fn div_scalar(self, k: Scalar) -> (r: Vector)
        ensures
            r == self.spec_div_scalar(k),
    {
        Vector { x: self.x.div(k), y: self.y.div(k), z: self.z.div(k) }
    }

    /// The length.
    pub fn magnitude(&self) -> (r: Scalar)
        ensures
            r == self.spec_magnitude(),
    {
        self.magnitude2().sqrt()
    }

    /// The square of the length.
    pub fn magnitude2(&self) -> (r: Scalar)
        ensures
            r == self.spec_magnitude2(),
    {
        self.x.mul(self.x).add(self.y.mul(self.y)).add(self.z.mul(self.z))
    }

    /// Each component combined with `v` by `f`.
    pub fn update<F: Fn(Scalar, Scalar) -> Scalar>(&self, f: F, v: Scalar) -> (r: Vector)
        requires
            f.requires((self.x, v)),
            f.requires((self.y, v)),
            f.requires((self.z, v)),
        ensures
            f.ensures((self.x, v), r.x),
            f.ensures((self.y, v), r.y),
            f.ensures((self.z, v), r.z),
    {
        Vector::new(f(self.x, v), f(self.y, v), f(self.z, v))
    }

    /// The vector of length one in the same direction.
    pub fn normalize(&self) -> (r: Vector)
        ensures
            r == self.spec_normalize(),
    {
        let m = self.magnitude();
        let f = |a: Scalar, b: Scalar| -> (q: Scalar)
            ensures
                q == a.spec_div(b),
            { a.div(b) };
        self.update(f, m)
    }

    /// The inner product.
    pub fn dot(&self, v: Vector) -> (r: Scalar)
        ensures
            r == self.spec_dot(v),
    {
        self.x.mul(v.x).add(self.y.mul(v.y)).add(self.z.mul(v.z))
    }
}

} // verus!
