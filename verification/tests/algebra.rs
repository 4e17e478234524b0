use raytracer::color::RGB;
use raytracer::scalar::Scalar;
use raytracer::vector::Vector;

fn s(v: f32) -> Scalar {
    Scalar::from_bits(v.to_bits())
}

fn f(v: Scalar) -> f32 {
    f32::from_bits(v.to_bits())
}

fn v3(x: f32, y: f32, z: f32) -> Vector {
    Vector::new(s(x), s(y), s(z))
}

fn xyz(v: Vector) -> (f32, f32, f32) {
    (f(v.x), f(v.y), f(v.z))
}

fn rgb(c: RGB) -> (f32, f32, f32) {
    (f(c.r), f(c.g), f(c.b))
}

#[test]
fn vectors_combine_by_component() {
    let a = v3(1.0, -2.0, 3.5);
    let b = v3(0.5, 4.0, -2.0);
    assert_eq!(xyz(a.add(b)), (1.5, 2.0, 1.5));
    assert_eq!(xyz(a.sub(b)), (0.5, -6.0, 5.5));
    assert_eq!(xyz(a.mul(b)), (0.5, -8.0, -7.0));
    assert_eq!(xyz(a.div(b)), (2.0, -0.5, -1.75));
    assert_eq!(xyz(a.scale(s(2.0))), (2.0, -4.0, 7.0));
    assert_eq!(xyz(a.div_scalar(s(2.0))), (0.5, -1.0, 1.75));
}

#[test]
fn magnitude_is_the_root_of_the_squares() {
    let a = v3(3.0, 4.0, 12.0);
    assert_eq!(f(a.magnitude2()), 169.0);
    assert_eq!(f(a.magnitude()), 13.0);
    let b = v3(0.1, 0.2, 0.3);
    let want = 0.1f32 * 0.1 + 0.2f32 * 0.2 + 0.3f32 * 0.3;
    assert_eq!(b.magnitude2().to_bits(), want.to_bits());
    assert_eq!(b.magnitude().to_bits(), want.sqrt().to_bits());
}

#[test]
fn dot_sums_the_products() {
    assert_eq!(f(v3(1.0, 2.0, 3.0).dot(v3(4.0, -5.0, 6.0))), 12.0);
    assert_eq!(f(v3(1.0, 0.0, 0.0).dot(v3(0.0, 1.0, 0.0))), 0.0);
}

#[test]
fn normalize_divides_by_the_magnitude() {
    assert_eq!(xyz(v3(0.0, 0.0, 5.0).normalize()), (0.0, 0.0, 1.0));
    assert_eq!(xyz(v3(3.0, 0.0, 4.0).normalize()), (0.6, 0.0, 0.8));
    let n = v3(1.0, 2.0, 3.0).normalize();
    let m = 14.0f32.sqrt();
    assert_eq!(xyz(n), (1.0 / m, 2.0 / m, 3.0 / m));
}

#[test]
fn normalize_of_zero_is_not_a_number() {
    let n = v3(0.0, 0.0, 0.0).normalize();
    assert!(n.x.is_nan() && n.y.is_nan() && n.z.is_nan());
}

#[test]
fn update_applies_the_function_to_each_component() {
    let a = v3(1.0, 2.0, 3.0);
    let r = a.update(|p, q| p.sub(q), s(0.5));
    assert_eq!(xyz(r), (0.5, 1.5, 2.5));
}

#[test]
fn colours_have_black_and_white() {
    assert_eq!(rgb(RGB::black()), (0.0, 0.0, 0.0));
    assert_eq!(rgb(RGB::white()), (1.0, 1.0, 1.0));
}

#[test]
fn colours_are_not_clamped() {
    let a = RGB { r: s(0.75), g: s(1.0), b: s(-0.5) };
    let b = RGB { r: s(0.5), g: s(3.0), b: s(-1.0) };
    assert_eq!(rgb(a.add(b)), (1.25, 4.0, -1.5));
    assert_eq!(rgb(a.mul(b)), (0.375, 3.0, 0.5));
    assert_eq!(rgb(a.scale(s(4.0))), (3.0, 4.0, -2.0));
    assert_eq!(rgb(a.scale(s(-2.0))), (-1.5, -2.0, 1.0));
}

#[test]
fn constants_have_their_bits() {
    assert_eq!(Scalar::zero().to_bits(), 0);
    assert_eq!(f(Scalar::one()), 1.0);
    assert!(f(Scalar::nan()).is_nan());
    assert_eq!(Scalar::from_i64(5).to_bits(), 5.0f32.to_bits());
    assert_eq!(Scalar::from_i64(-(1 << 40) - 1).to_bits(), (-((1i64 << 40) + 1) as f32).to_bits());
    assert_eq!(Scalar::from_i64(i64::MIN).to_bits(), (i64::MIN as f32).to_bits());
    assert_eq!(Scalar::from_i64(i64::MAX).to_bits(), (i64::MAX as f32).to_bits());
}
