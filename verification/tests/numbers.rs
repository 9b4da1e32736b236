//! Binary64 arithmetic against that of the machine.
use lerc::binary64::Binary64;

fn b(x: f64) -> Binary64 {
    Binary64 { bits: x.to_bits() }
}

fn f(z: Binary64) -> f64 {
    f64::from_bits(z.bits)
}

/// The same number, the sign of a zero included, or two NaNs.
fn same(a: f64, b: f64) -> bool {
    a.to_bits() == b.to_bits() || (a.is_nan() && b.is_nan())
}

fn specials() -> Vec<f64> {
    vec![
        0.0,
        -0.0,
        1.0,
        -1.0,
        0.5,
        1.5,
        0.1,
        -0.3,
        255.0,
        256.0,
        -129.0,
        32767.5,
        65536.0,
        2147483648.0,
        -2147483649.0,
        4294967296.0,
        9007199254740992.0,
        9007199254740993.0,
        1e-300,
        -1e300,
        f64::MIN_POSITIVE,
        f64::from_bits(1),
        f64::from_bits(0x000f_ffff_ffff_ffff),
        f64::MAX,
        f64::MIN,
        f64::INFINITY,
        f64::NEG_INFINITY,
        f64::NAN,
        f32::MAX as f64,
        f32::MIN_POSITIVE as f64,
        1.0 + f64::EPSILON,
        16777217.0,
        3.4028235677973366e38,
        1.401298464324817e-45,
        7.006492321624085e-46,
    ]
}

/// A sequence of well-mixed encodings.
fn mixed(n: usize) -> Vec<f64> {
    let mut x = 0x9e37_79b9_7f4a_7c15u64;
    let mut v = Vec::new();
    for i in 0..n {
        x ^= x << 13;
        x ^= x >> 7;
        x ^= x << 17;
        // Every other one has an exponent close to that of 1.
        let bits = if i % 2 == 0 {
            x
        } else {
            (x & 0x800f_ffff_ffff_ffff) | ((1000 + (x >> 52) % 60) << 52)
        };
        v.push(f64::from_bits(bits));
    }
    v
}

#[test]
fn sums_are_those_of_the_machine() {
    let mut all = specials();
    all.extend(mixed(300));
    for &x in &all {
        for &y in &all {
            assert!(same(f(b(x).plus(b(y))), x + y), "{x} + {y}");
        }
    }
}

#[test]
fn products_are_those_of_the_machine() {
    let mut all = specials();
    all.extend(mixed(2000));
    for &x in &all {
        for q in [0u32, 1, 2, 3, 7, 1000, 0x7fff_ffff, 0xffff_ffff] {
            assert!(same(f(b(x).times(q)), q as f64 * x), "{x} * {q}");
        }
    }
}

#[test]
fn comparisons_are_those_of_the_machine() {
    let mut all = specials();
    all.extend(mixed(200));
    for &x in &all {
        for &y in &all {
            assert_eq!(b(x).equals(b(y)), x == y, "{x} == {y}");
            let z = f(b(x).lesser(b(y)));
            assert!(z == x.min(y) || same(z, x.min(y)), "min({x}, {y})");
        }
    }
}

#[test]
fn integers_are_those_of_the_machine() {
    for n in [0i64, 1, -1, 127, -128, 65535, -2147483648, 4294967295, 9007199254740991] {
        assert!(same(f(Binary64::from_integer(n)), n as f64), "{n}");
    }
}

#[test]
fn casts_are_those_of_the_machine() {
    let mut all = specials();
    all.extend(mixed(3000));
    for &x in &all {
        assert_eq!(b(x).to_integer(-128, 127), x as i8 as i64, "{x}");
        assert_eq!(b(x).to_integer(0, 255), x as u8 as i64, "{x}");
        assert_eq!(b(x).to_integer(-32768, 32767), x as i16 as i64, "{x}");
        assert_eq!(b(x).to_integer(0, 65535), x as u16 as i64, "{x}");
        assert_eq!(b(x).to_integer(-2147483648, 2147483647), x as i32 as i64, "{x}");
        assert_eq!(b(x).to_integer(0, 4294967295), x as u32 as i64, "{x}");
    }
}

#[test]
fn binary32_is_that_of_the_machine() {
    let mut all = specials();
    all.extend(mixed(3000));
    for &x in &all {
        let narrow = f32::from_bits(b(x).narrowed());
        assert!(narrow.to_bits() == (x as f32).to_bits() || (narrow.is_nan() && x.is_nan()), "{x}");
        // Close to the range of binary32.
        let y = f32::from_bits((x.to_bits() >> 32) as u32);
        let wide = f(Binary64::widened(y.to_bits()));
        assert!(same(wide, y as f64), "{y}");
        let mid = y as f64 * 1.00000005;
        let narrow = f32::from_bits(b(mid).narrowed());
        assert!(
            narrow.to_bits() == (mid as f32).to_bits() || (narrow.is_nan() && mid.is_nan()),
            "{mid}"
        );
    }
}

#[test]
fn nan_operands_come_out_quiet() {
    let signalling = Binary64 { bits: 0x7ff0_0000_0000_0001 };
    assert_eq!(signalling.plus(b(1.0)).bits, 0x7ff8_0000_0000_0001);
    assert_eq!(b(1.0).plus(signalling).bits, 0x7ff8_0000_0000_0001);
    assert_eq!(signalling.times(3).bits, 0x7ff8_0000_0000_0001);
    assert_eq!(Binary64::widened(0x7f80_0001).narrowed(), 0x7fc0_0001);
    assert_eq!(signalling.lesser(b(2.0)), b(2.0));
    assert_eq!(b(2.0).lesser(signalling), b(2.0));
}

#[test]
fn half_steps_go_to_the_even_neighbour() {
    let big = 9007199254740992.0;
    assert_eq!(f(b(big).plus(b(1.0))), big);
    assert_eq!(f(b(big + 2.0).plus(b(1.0))), big + 4.0);
    assert_eq!(b(16777217.0).narrowed(), 16777216.0f32.to_bits());
    assert_eq!(b(16777219.0).narrowed(), 16777220.0f32.to_bits());
}
