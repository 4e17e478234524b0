//! The image: every pixel's ray cast at the scene, row by row.

use crate::color::RGB;
use crate::scalar::Scalar;
use crate::scene::{Model, Ray, Sphere};
use vstd::arithmetic::div_mod::lemma_fundamental_div_mod_converse;
use vstd::prelude::*;

verus! {

/// The colour of pixel `(x, y)` of a `w` by `h` image of the scene.
pub open spec fn pixel(w: int, h: int, x: int, y: int) -> RGB {
    Model::spec_see(Sphere::spec_new(), Model::spec_lights(), Ray::spec_new(w, h, x, y))
}

/// The number at place `i` of a `w` by `h` image: pixels follow each other
/// row by row, and each gives its red, green and blue and then a one.
pub open spec fn channel(w: int, h: int, i: int) -> Scalar {
    let p = i / 4;
    let c = pixel(w, h, p % w, p / w);
    if i % 4 == 0 {
        c.r
    } else if i % 4 == 1 {
        c.g
    } else if i % 4 == 2 {
        c.b
    } else {
        Scalar::spec_one()
    }
}

/// The `w` by `h` image of the scene; empty unless both are positive.
pub open spec fn image(w: int, h: int) -> Seq<Scalar> {
    if w > 0 && h > 0 {
        Seq::new((4 * w * h) as nat, |i: int| channel(w, h, i))
    } else {
        Seq::empty()
    }
}

/// From place `k` on, `s` holds the colour `c` and then a one.
pub open spec fn holds_pixel(s: Seq<Scalar>, k: int, c: RGB) -> bool {
    &&& 0 <= k
    &&& k + 3 < s.len()
    &&& s[k] == c.r
    &&& s[k + 1] == c.g
    &&& s[k + 2] == c.b
    &&& s[k + 3] == Scalar::spec_one()
}

/// The place of pixel `(x, y)` among the pixels of a row-major image.
proof fn lemma_pixel_index(w: int, h: int, x: int, y: int)
    requires
        0 <= x < w,
        0 <= y < h,
    ensures
        0 <= y * w + x < w * h,
        (y * w + x) / w == y,
        (y * w + x) % w == x,
        4 * (y * w + x) + 3 < 4 * w * h,
{
    assert(0 <= y * w && y * w + w <= h * w && h * w == w * h && y * w == w * y)
        by (nonlinear_arith)
        requires
            0 <= y < h,
            0 < w,
    ;
    assert(4 * w * h == 4 * (w * h)) by (nonlinear_arith);
    lemma_fundamental_div_mod_converse(y * w + x, w, y, x);
}

/// Renders the scene into `width * height` pixels of four numbers each.
pub fn raytrace(width: i32, height: i32) -> (data: Vec<Scalar>)
    ensures
        data@ == image(width as int, height as int),
        data@.len() == (if width > 0 && height > 0 {
            4 * width * height
        } else {
            0
        }),
        forall|i: int| 0 <= i < data@.len() && i % 4 == 3 ==> data@[i] == Scalar::spec_one(),
        forall|x: int, y: int|
            0 <= x < width && 0 <= y < height ==> holds_pixel(
                data@,
                4 * (y * width + x),
                #[trigger] pixel(width as int, height as int, x, y),
            ),
{
    let model = Model::new(width, height);
    let mut data: Vec<Scalar> = Vec::new();
    if width <= 0 || height <= 0 {
        assert(data@ =~= image(width as int, height as int));
        return data;
    }
    let ghost w = width as int;
    let ghost h = height as int;
    let mut y: i32 = 0;
    while y < model.height
        invariant
            0 <= y <= height,
            0 < width,
            w == width,
            h == height,
            model.width == width,
            model.height == height,
            model.sphere == Sphere::spec_new(),
            model.lights@ == Model::spec_lights(),
            data@.len() == 4 * (y * w),
            forall|i: int| 0 <= i < data@.len() ==> data@[i] == channel(w, h, i),
        decreases height - y,
    {
        let mut x: i32 = 0;
        while x < model.width
            invariant
                0 <= x <= width,
                0 <= y < height,
                w == width,
                h == height,
                model.width == width,
                model.height == height,
                model.sphere == Sphere::spec_new(),
                model.lights@ == Model::spec_lights(),
                data@.len() == 4 * (y * w + x),
                forall|i: int| 0 <= i < data@.len() ==> data@[i] == channel(w, h, i),
            decreases width - x,
        {
            let ray = Ray::new(width, height, x, y);
            let scene = model.render(&ray);
            proof {
                lemma_pixel_index(w, h, x as int, y as int);
                assert(scene == pixel(w, h, x as int, y as int));
            }
            data.push(scene.r);
            data.push(scene.g);
            data.push(scene.b);
            data.push(Scalar::one());
            x = x + 1;
        }
        proof {
            assert((y + 1) * w == y * w + w) by (nonlinear_arith);
        }
        y = y + 1;
    }
    proof {
        assert(4 * (h * w) == 4 * w * h) by (nonlinear_arith);
        assert(data@ =~= image(w, h));
        lemma_image_layout(w, h);
    }
    data
}

/// An image holds four numbers for each pixel, the fourth of them a one,
/// and pixel `(x, y)` stands at place `y * w + x`.
pub proof fn lemma_image_layout(w: int, h: int)
    ensures
        image(w, h).len() == (if w > 0 && h > 0 {
            4 * w * h
        } else {
            0
        }),
        forall|i: int| 0 <= i < image(w, h).len() && i % 4 == 3 ==> image(w, h)[i] == Scalar::spec_one(),
        forall|x: int, y: int|
            0 <= x < w && 0 <= y < h ==> holds_pixel(
                image(w, h),
                4 * (y * w + x),
                #[trigger] pixel(w, h, x, y),
            ),
{
    if w > 0 && h > 0 {
        assert(4 * w * h >= 0) by (nonlinear_arith)
            requires
                w > 0,
                h > 0,
        ;
        assert forall|x: int, y: int| 0 <= x < w && 0 <= y < h implies holds_pixel(
            image(w, h),
            4 * (y * w + x),
            #[trigger] pixel(w, h, x, y),
        ) by {
            lemma_pixel_index(w, h, x, y);
        }
    }
}

/// A pixel whose ray misses the sphere is black and opaque.
pub proof fn lemma_miss_is_black(w: int, h: int, x: int, y: int)
    requires
        0 <= x < w,
        0 <= y < h,
        Ray::spec_new(w, h, x, y).spec_intersect(Sphere::spec_new()) is None,
    ensures
        pixel(w, h, x, y) == RGB::spec_black(),
        holds_pixel(image(w, h), 4 * (y * w + x), RGB::spec_black()),
{
    lemma_image_layout(w, h);
    assert(holds_pixel(image(w, h), 4 * (y * w + x), pixel(w, h, x, y)));
}

/// The image depends on the two sizes and on nothing else: any two
/// renderings of one size agree in every bit.
pub proof fn lemma_rendering_is_determined(w: int, h: int, a: Seq<Scalar>, b: Seq<Scalar>)
    requires
        a == image(w, h),
        b == image(w, h),
    ensures
        a.len() == b.len(),
        forall|i: int| 0 <= i < a.len() ==> a[i].bits == b[i].bits,
{
}

} // verus!
