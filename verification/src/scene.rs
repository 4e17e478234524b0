//! The scene: one sphere, three lights, and the rays cast at them.

use crate::color::RGB;
use crate::ieee::Value;
use crate::scalar::Scalar;
use crate::vector::Vector;
use vstd::prelude::*;

verus! {

/// A sphere with a colour.
#[derive(Clone, Copy, Debug)]
pub struct Sphere {
    pub pos: Vector,
    pub rad: Scalar,
    pub color: RGB,
}

/// A point light.
#[derive(Clone, Copy, Debug)]
pub struct Light {
    pub pos: Vector,
    pub color: RGB,
}

/// A ray from `pos` along `dir`.
#[derive(Clone, Copy, Debug)]
pub struct Ray {
    pub dir: Vector,
    pub pos: Vector,
}

/// All that one image is rendered from.
#[derive(Debug)]
pub struct Model {
    pub width: i32,
    pub height: i32,
    pub sphere: Sphere,
    pub lights: Vec<Light>,
}

impl Clone for Model {
    fn clone(&self) -> (m: Model)
        ensures
            m.width == self.width,
            m.height == self.height,
            m.sphere == self.sphere,
            m.lights@ == self.lights@,
    {
        let lights = self.lights.clone();
        assert(lights@ =~= self.lights@);
        Model { width: self.width, height: self.height, sphere: self.sphere, lights }
    }
}

/// The point or direction with whole-numbered components.
pub open spec fn spec_point(x: int, y: int, z: int) -> Vector {
    Vector {
        x: Scalar::spec_from_int(x),
        y: Scalar::spec_from_int(y),
        z: Scalar::spec_from_int(z),
    }
}

/// The point or direction with these whole-numbered components.
fn point(x: i32, y: i32, z: i32) -> (r: Vector)
    ensures
        r == spec_point(x as int, y as int, z as int),
{
    Vector { x: Scalar::from_i32(x), y: Scalar::from_i32(y), z: Scalar::from_i32(z) }
}

impl Sphere {
    /// The white sphere of radius one about the origin.
    pub open spec fn spec_new() -> Sphere {
        Sphere {
            pos: Vector { x: Scalar::spec_zero(), y: Scalar::spec_zero(), z: Scalar::spec_zero() },
            rad: Scalar::spec_one(),
            color: RGB::spec_white(),
        }
    }

    /// The sphere of the scene.
    #[verifier::when_used_as_spec(spec_new)]
    pub fn new() -> (s: Sphere)
        ensures
            s == Sphere::spec_new(),
    {
        Sphere {
            pos: Vector { x: Scalar::zero(), y: Scalar::zero(), z: Scalar::zero() },
            rad: Scalar::one(),
            color: RGB::white(),
        }
    }
}

impl Ray {
    /// Where pixel `(x, y)` of a `w` by `h` image lies on the view plane:
    /// `(2x - w) / w` across and `(2y - h) / h` down, the numerators and
    /// denominators converted before the division.
    pub open spec fn spec_coord(w: int, h: int, x: int, y: int) -> (Scalar, Scalar) {
        (
            Scalar::spec_from_int(2 * x - w).spec_div(Scalar::spec_from_int(w)),
            Scalar::spec_from_int(2 * y - h).spec_div(Scalar::spec_from_int(h)),
        )
    }

    /// The ray through pixel `(x, y)`: from five behind the origin towards
    /// the pixel's place on the view plane five ahead of the eye.
    pub open spec fn spec_new(w: int, h: int, x: int, y: int) -> Ray {
        let c = Ray::spec_coord(w, h, x, y);
        Ray {
            dir: (Vector { x: c.0, y: c.1, z: Scalar::spec_from_int(5) }).spec_normalize(),
            pos: spec_point(0, 0, -5),
        }
    }

    /// The quantity whose sign tells whether the line of the ray meets the
    /// sphere: with `m` the origin as seen from the centre and `b` its
    /// inner product with the direction, `b^2 - |m|^2 + rad^2`.
    pub open spec fn spec_discriminant(self, sphere: Sphere) -> Scalar {
        let m = self.pos.spec_sub(sphere.pos);
        let b = m.spec_dot(self.dir);
        b.spec_mul(b).spec_sub(m.spec_magnitude2()).spec_add(sphere.rad.spec_mul(sphere.rad))
    }

    /// The distance along the line of the ray to the nearer of its two
    /// crossings of the sphere's surface: `-b` less the root of the
    /// discriminant.
    pub open spec fn spec_near_root(self, sphere: Sphere) -> Scalar {
        let m = self.pos.spec_sub(sphere.pos);
        let b = m.spec_dot(self.dir);
        b.spec_neg().spec_sub(self.spec_discriminant(sphere).spec_sqrt())
    }

    /// The distance to the nearer crossing, where the discriminant is not
    /// below zero and that crossing lies strictly ahead of the origin. The
    /// farther crossing is never looked at.
    pub open spec fn spec_intersect(self, sphere: Sphere) -> Option<Scalar> {
        let c = self.spec_discriminant(sphere);
        let t = self.spec_near_root(sphere);
        if !c@.is_negative() && t@.is_positive() {
            Some(t)
        } else {
            None
        }
    }

    /// The ray from the eye through pixel `(x, y)` of a `w` by `h` image.
    pub fn new(w: i32, h: i32, x: i32, y: i32) -> (r: Ray)
        ensures
            r == Ray::spec_new(w as int, h as int, x as int, y as int),
    {
        let (rx, ry) = Ray::coord(w, h, x, y);
        Ray { dir: (Vector { x: rx, y: ry, z: Scalar::from_i32(5) }).normalize(), pos: point(0, 0, -5) }
    }

    /// Where pixel `(x, y)` lies on the view plane, across and down.
    pub fn coord(w: i32, h: i32, x: i32, y: i32) -> (r: (Scalar, Scalar))
        ensures
            r == Ray::spec_coord(w as int, h as int, x as int, y as int),
    {
        let rx = Scalar::from_i64(2 * (x as i64) - (w as i64)).div(Scalar::from_i32(w));
        let ry = Scalar::from_i64(2 * (y as i64) - (h as i64)).div(Scalar::from_i32(h));
        (rx, ry)
    }

    /// The distance at which the ray first meets the sphere from outside,
    /// if it does.
    pub fn intersect(&self, sphere: &Sphere) -> (r: Option<Scalar>)
        ensures
            r == self.spec_intersect(*sphere),
            r matches Some(t) ==> t@.is_positive(),
    {
        let m = self.pos.sub(sphere.pos);
        let b = m.dot(self.dir);
        let c = b.mul(b).sub(m.magnitude2()).add(sphere.rad.mul(sphere.rad));
        if c.is_negative() {
            return None;
        }
        let t = b.neg().sub(c.sqrt());
        if t.is_positive() {
            Some(t)
        } else {
            None
        }
    }
}

impl Model {
    /// The green, the red and the blue light, in this order.
    pub open spec fn spec_lights() -> Seq<Light> {
        seq![
            Light {
                pos: spec_point(3, -2, -2),
                color: RGB {
                    r: Scalar::spec_zero(),
                    g: Scalar::spec_one(),
                    b: Scalar::spec_zero(),
                },
            },
            Light {
                pos: spec_point(-3, 2, -2),
                color: RGB {
                    r: Scalar::spec_one(),
                    g: Scalar::spec_zero(),
                    b: Scalar::spec_zero(),
                },
            },
            Light {
                pos: spec_point(3, 2, -2),
                color: RGB {
                    r: Scalar::spec_zero(),
                    g: Scalar::spec_zero(),
                    b: Scalar::spec_one(),
                },
            },
        ]
    }

    /// What one light adds to the colour of the point that `ray` reaches
    /// at the distance `dist`: the sphere's colour times the light's, times
    /// the cosine between the surface normal and the direction of the
    /// light; nothing where that cosine is below zero or not a number. The
    /// direction of the light is taken from the point as seen from the
    /// sphere's centre.
    pub open spec fn spec_simulate(dist: Scalar, light: Light, ray: Ray, sph: Sphere) -> RGB {
        let r = ray.pos.spec_add(ray.dir.spec_scale(dist)).spec_sub(sph.pos);
        let n = r.spec_div_scalar(sph.rad);
        let l = light.pos.spec_sub(r).spec_normalize();
        let b = n.spec_dot(l);
        if b@.is_negative() || b@ is Nan {
            RGB::spec_black()
        } else {
            sph.color.spec_mul(light.color).spec_scale(b)
        }
    }

    /// What the lights add up to, taken in order and starting from black.
    pub open spec fn spec_shade(lights: Seq<Light>, dist: Scalar, ray: Ray, sph: Sphere) -> RGB
        decreases lights.len(),
    {
        if lights.len() == 0 {
            RGB::spec_black()
        } else {
            Model::spec_shade(lights.drop_last(), dist, ray, sph).spec_add(
                Model::spec_simulate(dist, lights.last(), ray, sph),
            )
        }
    }

    /// The colour seen along `ray` in a scene of one sphere and some
    /// lights: black where the ray misses the sphere.
    pub open spec fn spec_see(sphere: Sphere, lights: Seq<Light>, ray: Ray) -> RGB {
        match ray.spec_intersect(sphere) {
            Some(dist) => Model::spec_shade(lights, dist, ray, sphere),
            None => RGB::spec_black(),
        }
    }

    /// The colour seen along `ray` in this model's scene.
    pub open spec fn spec_render(self, ray: Ray) -> RGB {
        Model::spec_see(self.sphere, self.lights@, ray)
    }

    /// The scene, with the sizes of the image to render.
    pub fn new(w: i32, h: i32) -> (m: Model)
        ensures
            m.width == w,
            m.height == h,
            m.sphere == Sphere::spec_new(),
            m.lights@ == Model::spec_lights(),
    {
        let light1 = Light {
            pos: point(3, -2, -2),
            color: RGB { r: Scalar::zero(), g: Scalar::one(), b: Scalar::zero() },
        };
        let light2 = Light {
            pos: point(-3, 2, -2),
            color: RGB { r: Scalar::one(), g: Scalar::zero(), b: Scalar::zero() },
        };
        let light3 = Light {
            pos: point(3, 2, -2),
            color: RGB { r: Scalar::zero(), g: Scalar::zero(), b: Scalar::one() },
        };
        let mut lights: Vec<Light> = Vec::new();
        lights.push(light1);
        lights.push(light2);
        lights.push(light3);
        assert(lights@ =~= Model::spec_lights());
        Model { width: w, height: h, sphere: Sphere::new(), lights }
    }

    /// What `light` adds to the colour of the point that `ray` reaches on
    /// `sph` at the distance `dist`.
    pub fn simulate(dist: Scalar, light: &Light, ray: &Ray, sph: &Sphere) -> (c: RGB)
        ensures
            c == Model::spec_simulate(dist, *light, *ray, *sph),
    {
        let r = ray.pos.add(ray.dir.scale(dist)).sub(sph.pos);
        let n = r.div_scalar(sph.rad);
        let l = light.pos.sub(r).normalize();
        let b = n.dot(l);
        if b.is_negative() || b.is_nan() {
            RGB::black()
        } else {
            sph.color.mul(light.color).scale(b)
        }
    }

    /// The colour seen along `ray`: the lights' shares summed where the
    /// ray hits the sphere, black where it misses.
    pub fn render(&self, ray: &Ray) -> (c: RGB)
        ensures
            c == self.spec_render(*ray),
            ray.spec_intersect(self.sphere) is None ==> c == RGB::spec_black(),
    {
        match ray.intersect(&self.sphere) {
            Some(dist) => {
                let mut black = RGB::black();
                let mut i: usize = 0;
                while i < self.lights.len()
                    invariant
                        i <= self.lights.len(),
                        black == Model::spec_shade(
                            self.lights@.take(i as int),
                            dist,
                            *ray,
                            self.sphere,
                        ),
                    decreases self.lights.len() - i,
                {
                    let t = Model::simulate(dist, &self.lights[i], ray, &self.sphere);
                    proof {
                        assert(self.lights@.take(i + 1).drop_last() =~= self.lights@.take(i as int));
                    }
                    black = black.add(t);
                    i = i + 1;
                }
                proof {
                    assert(self.lights@.take(i as int) =~= self.lights@);
                }
                black
            },
            None => RGB::black(),
        }
    }
}

/// A ray that starts on the surface it is aimed at, so that the nearer
/// crossing lies at distance zero, does not hit.
pub proof fn lemma_touching_is_miss(ray: Ray, sphere: Sphere)
    requires
        ray.spec_near_root(sphere)@ matches Value::Finite { units, .. } && units == 0,
    ensures
        ray.spec_intersect(sphere) is None,
{
}

} // verus!
