use raytracer::color::RGB;
use raytracer::raytrace;
use raytracer::scalar::Scalar;
use raytracer::scene::{Light, Model, Ray, Sphere};
use raytracer::vector::Vector;

fn s(v: f32) -> Scalar {
    Scalar::from_bits(v.to_bits())
}

fn f(v: Scalar) -> f32 {
    f32::from_bits(v.to_bits())
}

fn vec3(x: f32, y: f32, z: f32) -> Vector {
    Vector::new(s(x), s(y), s(z))
}

fn bits(v: &[Scalar]) -> Vec<u32> {
    v.iter().map(|x| x.to_bits()).collect()
}

// The same scene in the machine's own arithmetic.

type V3 = [f32; 3];

fn hw_sub(a: V3, b: V3) -> V3 {
    [a[0] - b[0], a[1] - b[1], a[2] - b[2]]
}

fn hw_add(a: V3, b: V3) -> V3 {
    [a[0] + b[0], a[1] + b[1], a[2] + b[2]]
}

fn hw_dot(a: V3, b: V3) -> f32 {
    a[0] * b[0] + a[1] * b[1] + a[2] * b[2]
}

fn hw_mag2(a: V3) -> f32 {
    a[0].powf(2.0) + a[1].powf(2.0) + a[2].powf(2.0)
}

fn hw_normalize(a: V3) -> V3 {
    let m = hw_mag2(a).sqrt();
    [a[0] / m, a[1] / m, a[2] / m]
}

fn hw_ray(w: i32, h: i32, x: i32, y: i32) -> (V3, V3) {
    let rx = ((x * 2 - w) as f32) / (w as f32);
    let ry = ((y * 2 - h) as f32) / (h as f32);
    (hw_normalize([rx, ry, 5.0]), [0.0, 0.0, -5.0])
}

fn hw_intersect(dir: V3, pos: V3, centre: V3, rad: f32) -> Option<f32> {
    let m = hw_sub(pos, centre);
    let b = hw_dot(m, dir);
    let c = b.powf(2.0) - hw_mag2(m) + rad.powf(2.0);
    if c < 0.0 {
        return None;
    }
    let t = -b - c.sqrt();
    if t > 0.0 {
        Some(t)
    } else {
        None
    }
}

fn hw_simulate(dist: f32, light: (V3, V3), dir: V3, pos: V3, centre: V3, rad: f32, colour: V3) -> V3 {
    let r = hw_sub(hw_add(pos, [dir[0] * dist, dir[1] * dist, dir[2] * dist]), centre);
    let n = [r[0] / rad, r[1] / rad, r[2] / rad];
    let l = hw_normalize(hw_sub(light.0, r));
    let b = hw_dot(n, l);
    if b >= 0.0 {
        let c = [colour[0] * light.1[0], colour[1] * light.1[1], colour[2] * light.1[2]];
        [c[0] * b, c[1] * b, c[2] * b]
    } else {
        [0.0, 0.0, 0.0]
    }
}

const LIGHTS: [(V3, V3); 3] = [
    ([3.0, -2.0, -2.0], [0.0, 1.0, 0.0]),
    ([-3.0, 2.0, -2.0], [1.0, 0.0, 0.0]),
    ([3.0, 2.0, -2.0], [0.0, 0.0, 1.0]),
];

fn hw_pixel(w: i32, h: i32, x: i32, y: i32) -> V3 {
    let (dir, pos) = hw_ray(w, h, x, y);
    match hw_intersect(dir, pos, [0.0; 3], 1.0) {
        Some(dist) => {
            let mut acc = [0.0f32; 3];
            for light in LIGHTS {
                acc = hw_add(acc, hw_simulate(dist, light, dir, pos, [0.0; 3], 1.0, [1.0; 3]));
            }
            acc
        }
        None => [0.0; 3],
    }
}

fn hw_image(w: i32, h: i32) -> Vec<u32> {
    let mut out = Vec::new();
    for y in 0..h {
        for x in 0..w {
            let c = hw_pixel(w, h, x, y);
            out.push(c[0].to_bits());
            out.push(c[1].to_bits());
            out.push(c[2].to_bits());
            out.push(1.0f32.to_bits());
        }
    }
    out
}

#[test]
fn two_by_two() {
    let data = raytrace(2, 2);
    assert_eq!(data.len(), 16);
    for p in 0..4 {
        assert_eq!(f(data[4 * p + 3]), 1.0);
    }
    // the corner pixel looks past the sphere
    assert_eq!(bits(&data[0..4]), vec![0, 0, 0, 0x3f80_0000]);
    // the pixel on the axis sees each light under the same angle
    let centre = &data[12..16];
    let want = (1.0f32 / 14.0f32.sqrt()).to_bits();
    assert_eq!(bits(centre), vec![want, want, want, 0x3f80_0000]);
    assert!(f(centre[0]) > 0.26 && f(centre[0]) < 0.27);
    // the two pixels beside the axis graze the sphere and are lit
    for p in 1..3 {
        let c = &data[4 * p..4 * p + 3];
        assert!(c.iter().any(|v| f(*v) > 0.0));
    }
    assert_eq!(bits(&data), hw_image(2, 2));
}

#[test]
fn images_agree_with_hardware() {
    for (w, h) in [(1, 1), (3, 2), (2, 5), (16, 16), (40, 30), (7, 64)] {
        assert_eq!(bits(&raytrace(w, h)), hw_image(w, h), "{} by {}", w, h);
    }
}

#[test]
fn length_is_four_per_pixel() {
    for (w, h) in [(1, 1), (1, 9), (9, 1), (5, 4), (4, 5), (31, 17)] {
        assert_eq!(raytrace(w, h).len(), (w * h * 4) as usize);
    }
}

#[test]
fn no_pixels_without_positive_sizes() {
    assert!(raytrace(0, 0).is_empty());
    assert!(raytrace(0, 5).is_empty());
    assert!(raytrace(5, 0).is_empty());
    assert!(raytrace(-3, 4).is_empty());
    assert!(raytrace(4, -3).is_empty());
}

#[test]
fn alpha_is_one_everywhere() {
    let data = raytrace(23, 11);
    for p in 0..23 * 11 {
        assert_eq!(data[4 * p + 3].to_bits(), 0x3f80_0000);
    }
}

#[test]
fn rendering_twice_gives_the_same_bits() {
    assert_eq!(bits(&raytrace(19, 13)), bits(&raytrace(19, 13)));
}

#[test]
fn image_is_the_pixels_one_by_one() {
    let (w, h) = (12, 9);
    let data = raytrace(w, h);
    let model = Model::new(w, h);
    for y in 0..h {
        for x in 0..w {
            let c = model.render(&Ray::new(w, h, x, y));
            let k = 4 * (y * w + x) as usize;
            assert_eq!(
                bits(&data[k..k + 4]),
                vec![c.r.to_bits(), c.g.to_bits(), c.b.to_bits(), 0x3f80_0000]
            );
        }
    }
}

#[test]
fn wide_image_has_black_corners_and_a_lit_centre() {
    let (w, h) = (64, 4);
    let data = raytrace(w, h);
    let at = |x: i32, y: i32| bits(&data[4 * (y * w + x) as usize..4 * (y * w + x) as usize + 4]);
    assert_eq!(at(0, 0), vec![0, 0, 0, 0x3f80_0000]);
    assert_eq!(at(63, 0), vec![0, 0, 0, 0x3f80_0000]);
    assert_eq!(at(0, 3), vec![0, 0, 0, 0x3f80_0000]);
    let c = at(32, 2);
    assert!(c[0] != 0 && c[1] != 0 && c[2] != 0);
}

#[test]
fn ray_along_the_axis_hits_at_four() {
    let ray = Ray { dir: vec3(0.0, 0.0, 1.0), pos: vec3(0.0, 0.0, -5.0) };
    let t = ray.intersect(&Sphere::new()).unwrap();
    assert_eq!(f(t), 4.0);
    assert_eq!(t.to_bits(), 0x4080_0000);
}

#[test]
fn ray_through_the_middle_pixel_points_along_the_axis() {
    let ray = Ray::new(2, 2, 1, 1);
    assert_eq!((f(ray.dir.x), f(ray.dir.y), f(ray.dir.z)), (0.0, 0.0, 1.0));
    assert_eq!((f(ray.pos.x), f(ray.pos.y), f(ray.pos.z)), (0.0, 0.0, -5.0));
    assert_eq!(f(ray.intersect(&Sphere::new()).unwrap()), 4.0);
}

#[test]
fn ray_from_the_surface_misses() {
    let ray = Ray { dir: vec3(0.0, 0.0, 1.0), pos: vec3(0.0, 0.0, -1.0) };
    assert!(ray.intersect(&Sphere::new()).is_none());
}

#[test]
fn ray_from_inside_misses() {
    let ray = Ray { dir: vec3(0.0, 0.0, 1.0), pos: vec3(0.0, 0.0, 0.0) };
    assert!(ray.intersect(&Sphere::new()).is_none());
    let ray = Ray { dir: vec3(0.0, 0.0, 1.0), pos: vec3(0.0, 0.0, -0.5) };
    assert!(ray.intersect(&Sphere::new()).is_none());
}

#[test]
fn ray_pointing_away_misses() {
    let ray = Ray { dir: vec3(0.0, 0.0, -1.0), pos: vec3(0.0, 0.0, -5.0) };
    assert!(ray.intersect(&Sphere::new()).is_none());
}

#[test]
fn ray_past_the_sphere_misses_and_renders_black() {
    let ray = Ray::new(2, 2, 0, 0);
    assert!(ray.intersect(&Sphere::new()).is_none());
    let c = Model::new(2, 2).render(&ray);
    assert_eq!((c.r.to_bits(), c.g.to_bits(), c.b.to_bits()), (0, 0, 0));
}

#[test]
fn ray_without_direction_misses() {
    let dir = vec3(0.0, 0.0, 0.0).normalize();
    assert!(dir.x.is_nan() && dir.y.is_nan() && dir.z.is_nan());
    let ray = Ray { dir, pos: vec3(0.0, 0.0, -5.0) };
    assert!(ray.intersect(&Sphere::new()).is_none());
}

#[test]
fn pixel_coordinates_are_centred() {
    let (rx, ry) = Ray::coord(4, 2, 0, 1);
    assert_eq!((f(rx), f(ry)), (-1.0, 0.0));
    let (rx, ry) = Ray::coord(4, 2, 3, 0);
    assert_eq!((f(rx), f(ry)), (0.5, -1.0));
    let (rx, ry) = Ray::coord(3, 3, 1, 2);
    assert_eq!((rx.to_bits(), ry.to_bits()), ((-1.0f32 / 3.0).to_bits(), (1.0f32 / 3.0).to_bits()));
}

#[test]
fn intersections_agree_with_hardware() {
    let (w, h) = (33, 21);
    for y in 0..h {
        for x in 0..w {
            let (dir, pos) = hw_ray(w, h, x, y);
            let ray = Ray::new(w, h, x, y);
            assert_eq!(bits(&[ray.dir.x, ray.dir.y, ray.dir.z]), dir.map(f32::to_bits).to_vec());
            let got = ray.intersect(&Sphere::new()).map(|t| t.to_bits());
            let want = hw_intersect(dir, pos, [0.0; 3], 1.0).map(f32::to_bits);
            assert_eq!(got, want);
        }
    }
}

#[test]
fn light_behind_the_surface_adds_nothing() {
    let ray = Ray { dir: vec3(0.0, 0.0, 1.0), pos: vec3(0.0, 0.0, -5.0) };
    let light = Light { pos: vec3(0.0, 0.0, 4.0), color: RGB::white() };
    let c = Model::simulate(s(4.0), &light, &ray, &Sphere::new());
    assert_eq!((c.r.to_bits(), c.g.to_bits(), c.b.to_bits()), (0, 0, 0));
}

#[test]
fn light_straight_ahead_adds_its_colour() {
    let ray = Ray { dir: vec3(0.0, 0.0, 1.0), pos: vec3(0.0, 0.0, -5.0) };
    let light = Light { pos: vec3(0.0, 0.0, -3.0), color: RGB { r: s(0.5), g: s(2.0), b: s(-1.0) } };
    let c = Model::simulate(s(4.0), &light, &ray, &Sphere::new());
    assert_eq!((f(c.r), f(c.g), f(c.b)), (0.5, 2.0, -1.0));
}

#[test]
fn light_level_with_the_surface_adds_zero() {
    let ray = Ray { dir: vec3(0.0, 0.0, 1.0), pos: vec3(0.0, 0.0, -5.0) };
    let light = Light { pos: vec3(3.0, 0.0, -1.0), color: RGB::white() };
    let c = Model::simulate(s(4.0), &light, &ray, &Sphere::new());
    assert_eq!((f(c.r), f(c.g), f(c.b)), (0.0, 0.0, 0.0));
}

#[test]
fn light_without_direction_adds_nothing() {
    // the light sits on the very point that is lit
    let ray = Ray { dir: vec3(0.0, 0.0, 1.0), pos: vec3(0.0, 0.0, -5.0) };
    let light = Light { pos: vec3(0.0, 0.0, -1.0), color: RGB::white() };
    let c = Model::simulate(s(4.0), &light, &ray, &Sphere::new());
    assert_eq!((c.r.to_bits(), c.g.to_bits(), c.b.to_bits()), (0, 0, 0));
}

#[test]
fn shading_agrees_with_hardware() {
    let mut seed = 11u64;
    let mut next = move || {
        seed = seed.wrapping_mul(6364136223846793005).wrapping_add(1442695040888963407);
        ((seed >> 40) as i32 - (1 << 23)) as f32 / 1048576.0
    };
    for _ in 0..500 {
        let dir = hw_normalize([next(), next(), next()]);
        let pos = [next(), next(), next()];
        let centre = [next() / 4.0, next() / 4.0, next() / 4.0];
        let rad = next().abs() + 0.5;
        let colour = [next(), next(), next()];
        let light = ([next(), next(), next()], [next(), next(), next()]);
        let dist = next().abs();
        let want = hw_simulate(dist, light, dir, pos, centre, rad, colour);
        let sphere = Sphere {
            pos: vec3(centre[0], centre[1], centre[2]),
            rad: s(rad),
            color: RGB { r: s(colour[0]), g: s(colour[1]), b: s(colour[2]) },
        };
        let ray = Ray { dir: vec3(dir[0], dir[1], dir[2]), pos: vec3(pos[0], pos[1], pos[2]) };
        let l = Light {
            pos: vec3(light.0[0], light.0[1], light.0[2]),
            color: RGB { r: s(light.1[0]), g: s(light.1[1]), b: s(light.1[2]) },
        };
        let got = Model::simulate(s(dist), &l, &ray, &sphere);
        assert_eq!(bits(&[got.r, got.g, got.b]), want.map(f32::to_bits).to_vec());
        let hit = ray.intersect(&sphere).map(|t| t.to_bits());
        assert_eq!(hit, hw_intersect(dir, pos, centre, rad).map(f32::to_bits));
    }
}

#[test]
fn the_scene_is_fixed() {
    let m = Model::new(8, 6);
    assert_eq!((m.width, m.height), (8, 6));
    assert_eq!(m.lights.len(), 3);
    let p: Vec<(f32, f32, f32)> = m.lights.iter().map(|l| (f(l.pos.x), f(l.pos.y), f(l.pos.z))).collect();
    assert_eq!(p, vec![(3.0, -2.0, -2.0), (-3.0, 2.0, -2.0), (3.0, 2.0, -2.0)]);
    let c: Vec<(f32, f32, f32)> = m.lights.iter().map(|l| (f(l.color.r), f(l.color.g), f(l.color.b))).collect();
    assert_eq!(c, vec![(0.0, 1.0, 0.0), (1.0, 0.0, 0.0), (0.0, 0.0, 1.0)]);
    assert_eq!((f(m.sphere.pos.x), f(m.sphere.pos.y), f(m.sphere.pos.z)), (0.0, 0.0, 0.0));
    assert_eq!(f(m.sphere.rad), 1.0);
    assert_eq!((f(m.sphere.color.r), f(m.sphere.color.g), f(m.sphere.color.b)), (1.0, 1.0, 1.0));
}

#[test]
fn lights_add_up_in_order() {
    let ray = Ray::new(2, 2, 1, 1);
    let mut m = Model::new(2, 2);
    let all = m.render(&ray);
    let dist = ray.intersect(&m.sphere).unwrap();
    let mut acc = RGB::black();
    for l in &m.lights {
        acc = acc.add(Model::simulate(dist, l, &ray, &m.sphere));
    }
    assert_eq!(bits(&[all.r, all.g, all.b]), bits(&[acc.r, acc.g, acc.b]));
    m.lights.clear();
    let none = m.render(&ray);
    assert_eq!(bits(&[none.r, none.g, none.b]), vec![0, 0, 0]);
}

#[test]
fn a_cloned_model_renders_the_same() {
    let m = Model::new(5, 4);
    let c = m.clone();
    assert_eq!((c.width, c.height, c.lights.len()), (5, 4, 3));
    let ray = Ray::new(5, 4, 2, 2);
    let (a, b) = (m.render(&ray), c.render(&ray));
    assert_eq!(bits(&[a.r, a.g, a.b]), bits(&[b.r, b.g, b.b]));
    assert!(a.r.to_bits() != 0);
}
