use raytracer::scalar::Scalar;

const EDGES: [u32; 24] = [
    0x0000_0000,
    0x8000_0000,
    0x0000_0001,
    0x8000_0001,
    0x0000_0002,
    0x007f_ffff,
    0x0080_0000,
    0x8080_0000,
    0x0080_0001,
    0x00ff_ffff,
    0x0100_0000,
    0x3400_0000,
    0x3f7f_ffff,
    0x3f80_0000,
    0xbf80_0000,
    0x3f80_0001,
    0x4000_0000,
    0x4b80_0000,
    0x7f7f_ffff,
    0xff7f_ffff,
    0x7f80_0000,
    0xff80_0000,
    0x7fc0_0000,
    0xffc0_0001,
];

struct Lcg(u64);

impl Lcg {
    fn next(&mut self) -> u32 {
        self.0 = self.0.wrapping_mul(6364136223846793005).wrapping_add(1442695040888963407);
        (self.0 >> 32) as u32
    }

    /// A pattern whose exponent lies within `spread` of `near`.
    fn close_to(&mut self, near: u32, spread: u32) -> u32 {
        let r = self.next();
        let e = (near + (self.next() % (2 * spread + 1))).saturating_sub(spread).min(254);
        (r & 0x807f_ffff) | (e << 23)
    }
}

fn same(got: Scalar, want: f32) -> bool {
    if want.is_nan() {
        got.to_bits() == 0x7fc0_0000
    } else {
        got.to_bits() == want.to_bits()
    }
}

fn compare_pair(a: u32, b: u32) {
    let (x, y) = (Scalar::from_bits(a), Scalar::from_bits(b));
    let (p, q) = (f32::from_bits(a), f32::from_bits(b));
    assert!(same(x.add(y), p + q), "{:#x} + {:#x} gave {:#x}", a, b, x.add(y).to_bits());
    assert!(same(x.sub(y), p - q), "{:#x} - {:#x} gave {:#x}", a, b, x.sub(y).to_bits());
    assert!(same(x.mul(y), p * q), "{:#x} * {:#x} gave {:#x}", a, b, x.mul(y).to_bits());
    assert!(same(x.div(y), p / q), "{:#x} / {:#x} gave {:#x}", a, b, x.div(y).to_bits());
}

#[test]
fn edge_patterns_agree_with_hardware() {
    for a in EDGES {
        for b in EDGES {
            compare_pair(a, b);
        }
    }
}

#[test]
fn arbitrary_patterns_agree_with_hardware() {
    let mut g = Lcg(1);
    for _ in 0..100000 {
        let (a, b) = (g.next(), g.next());
        compare_pair(a, b);
    }
}

#[test]
fn nearby_exponents_agree_with_hardware() {
    let mut g = Lcg(2);
    for _ in 0..50000 {
        let near = g.next() % 255;
        let (a, b) = (g.close_to(near, 3), g.close_to(near, 3));
        compare_pair(a, b);
    }
}

#[test]
fn distant_exponents_agree_with_hardware() {
    let mut g = Lcg(3);
    for _ in 0..50000 {
        let near = g.next() % 255;
        let (a, b) = (g.close_to(near, 1), g.close_to(near, 40));
        compare_pair(a, b);
    }
}

#[test]
fn small_numbers_agree_with_hardware() {
    let mut g = Lcg(4);
    for _ in 0..50000 {
        let (a, b) = (g.close_to(1, 2), g.close_to(126, 30));
        compare_pair(a, b);
        compare_pair(b, a);
    }
}

#[test]
fn edges_against_arbitrary_agree_with_hardware() {
    let mut g = Lcg(5);
    for a in EDGES {
        for _ in 0..100 {
            let b = g.next();
            compare_pair(a, b);
            compare_pair(b, a);
        }
    }
}

#[test]
fn negation_turns_the_sign() {
    assert_eq!(Scalar::from_bits(0x3f80_0000).neg().to_bits(), 0xbf80_0000);
    assert_eq!(Scalar::from_bits(0x8000_0000).neg().to_bits(), 0);
    assert_eq!(Scalar::from_bits(0x7f80_0000).neg().to_bits(), 0xff80_0000);
    assert_eq!(Scalar::from_bits(0xffc0_0001).neg().to_bits(), 0x7fc0_0000);
}

#[test]
fn whole_numbers_convert_as_hardware_does() {
    let mut g = Lcg(6);
    let fixed = [0, 1, -1, 2, 5, -5, 3, 16777215, 16777216, 16777217, 16777219, i32::MAX, i32::MIN, -16777217, 33554434, 33554435];
    for v in fixed {
        assert_eq!(Scalar::from_i32(v).to_bits(), (v as f32).to_bits(), "{}", v);
    }
    for _ in 0..50000 {
        let v = g.next() as i32;
        assert_eq!(Scalar::from_i32(v).to_bits(), (v as f32).to_bits(), "{}", v);
    }
}

#[test]
fn signs_are_read_strictly() {
    assert!(!Scalar::from_bits(0).is_positive());
    assert!(!Scalar::from_bits(0).is_negative());
    assert!(!Scalar::from_bits(0x8000_0000).is_negative());
    assert!(!Scalar::from_bits(0x8000_0000).is_positive());
    assert!(Scalar::from_bits(1).is_positive());
    assert!(Scalar::from_bits(0x8000_0001).is_negative());
    assert!(Scalar::from_bits(0x7f80_0000).is_positive());
    assert!(Scalar::from_bits(0xff80_0000).is_negative());
    assert!(!Scalar::from_bits(0x7fc0_0000).is_positive());
    assert!(!Scalar::from_bits(0xffc0_0000).is_negative());
    assert!(Scalar::from_bits(0xffc0_0000).is_nan());
    assert!(!Scalar::from_bits(0xff80_0000).is_nan());
}

#[test]
fn ties_go_to_the_even_neighbour() {
    let f = |v: f32| Scalar::from_bits(v.to_bits());
    // 2^24 + 1 lies halfway between 2^24 and 2^24 + 2
    assert_eq!(f(16777216.0).add(f(1.0)).to_bits(), 16777216.0f32.to_bits());
    // 2^24 + 3 lies halfway between 2^24 + 2 and 2^24 + 4
    assert_eq!(f(16777218.0).add(f(1.0)).to_bits(), 16777220.0f32.to_bits());
    assert_eq!(f(-16777216.0).sub(f(1.0)).to_bits(), (-16777216.0f32).to_bits());
    // (2^12 + 1)^2 = 2^24 + 2^13 + 1 needs 25 digits and ends in a one
    assert_eq!(f(4097.0).mul(f(4097.0)).to_bits(), 16785408.0f32.to_bits());
    // just above and just below the halfway point
    assert_eq!(f(16777216.0).add(f(1.25)).to_bits(), 16777218.0f32.to_bits());
    assert_eq!(f(16777216.0).add(f(0.75)).to_bits(), 16777216.0f32.to_bits());
    // half of the smallest subnormal rounds to zero, three halves to two
    assert_eq!(Scalar::from_bits(1).mul(f(0.5)).to_bits(), 0);
    assert_eq!(Scalar::from_bits(3).mul(f(0.5)).to_bits(), 2);
    assert_eq!(Scalar::from_bits(1).div(f(2.0)).to_bits(), 0);
    assert_eq!(Scalar::from_bits(0x8000_0001).div(f(2.0)).to_bits(), 0x8000_0000);
}

#[test]
fn results_beyond_the_range_are_infinite() {
    let big = Scalar::from_bits(0x7f7f_ffff);
    assert_eq!(big.add(big).to_bits(), 0x7f80_0000);
    assert_eq!(big.mul(big).to_bits(), 0x7f80_0000);
    assert_eq!(big.neg().mul(big).to_bits(), 0xff80_0000);
    assert_eq!(big.div(Scalar::from_bits(1)).to_bits(), 0x7f80_0000);
    // half a last place is not enough to leave the range
    assert_eq!(big.add(Scalar::from_bits(0x7300_0000 - 1)).to_bits(), 0x7f7f_ffff);
    assert_eq!(big.add(Scalar::from_bits(0x7300_0000)).to_bits(), 0x7f80_0000);
}

#[test]
fn zeros_keep_their_signs() {
    let (p, n) = (Scalar::from_bits(0), Scalar::from_bits(0x8000_0000));
    let one = Scalar::one();
    assert_eq!(p.add(n).to_bits(), 0);
    assert_eq!(n.add(n).to_bits(), 0x8000_0000);
    assert_eq!(one.sub(one).to_bits(), 0);
    assert_eq!(n.mul(one).to_bits(), 0x8000_0000);
    assert_eq!(n.mul(one.neg()).to_bits(), 0);
    assert_eq!(p.div(one.neg()).to_bits(), 0x8000_0000);
    assert_eq!(one.div(n).to_bits(), 0xff80_0000);
    assert!(p.div(n).is_nan());
    assert!(p.mul(Scalar::from_bits(0x7f80_0000)).is_nan());
    assert!(Scalar::from_bits(0x7f80_0000).sub(Scalar::from_bits(0x7f80_0000)).is_nan());
}
