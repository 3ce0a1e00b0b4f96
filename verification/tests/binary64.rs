use fleet_conductor::Binary64;

fn num(x: f64) -> Binary64 {
    Binary64::from_bits(x.to_bits())
}

/// Numbers of every class, both signs, with neighbours that make ties, carries,
/// cancellation, underflow and overflow.
fn samples() -> Vec<f64> {
    let mut list = vec![
        0.0,
        1.0,
        0.1,
        0.2,
        0.3,
        0.5,
        1.5,
        3.0,
        10.0,
        1e-12,
        1e300,
        1e-300,
        1e308,
        f64::MIN_POSITIVE,
        f64::MAX,
        f64::EPSILON,
        f64::INFINITY,
        f64::NAN,
        9007199254740991.0,
        9007199254740992.0,
        9007199254740994.0,
        18446744073709551615.0,
        4503599627370497.0,
        0.49999999999999994,
        1.0000000000000002,
    ];
    for bits in [
        1,
        2,
        3,
        0x000f_ffff_ffff_ffff,
        0x0010_0000_0000_0001,
        0x0020_0000_0000_0000,
        0x0020_0000_0000_0001,
        0x3cb0_0000_0000_0000,
        0x3ca0_0000_0000_0000,
        0x3c90_0000_0000_0000,
        0x3ff0_0000_0000_0001,
        0x3fef_ffff_ffff_ffff,
        0x7fe0_0000_0000_0000,
        0x7fef_ffff_ffff_fffe,
        0x7ca0_0000_0000_0000,
    ] {
        list.push(f64::from_bits(bits));
    }
    // A simple generator for arbitrary bit patterns.
    let mut x: u64 = 0x9e37_79b9_7f4a_7c15;
    for i in 0..120 {
        x = x.wrapping_mul(6364136223846793005).wrapping_add(1442695040888963407);
        let bits = x >> 1;
        list.push(f64::from_bits(bits));
        // Also near one, where sums and products of the samples stay finite.
        let near = (bits & 0x000f_ffff_ffff_ffff) | ((1000 + (i % 46)) << 52);
        list.push(f64::from_bits(near));
    }
    let negative: Vec<f64> = list.iter().map(|x| -*x).collect();
    list.extend(negative);
    list
}

fn same(ours: Binary64, hardware: f64, what: &str, a: f64, b: f64) {
    if hardware.is_nan() {
        assert!(ours.is_nan(), "{what} of {a:e} and {b:e}");
    } else {
        assert_eq!(ours.to_bits(), hardware.to_bits(), "{what} of {a:e} and {b:e}");
    }
}

#[test]
fn sums_agree_with_the_hardware() {
    let list = samples();
    for a in &list {
        for b in &list {
            same(num(*a).sum(num(*b)), *a + *b, "sum", *a, *b);
        }
    }
}

#[test]
fn products_agree_with_the_hardware() {
    let list = samples();
    for a in &list {
        for b in &list {
            same(num(*a).product(num(*b)), *a * *b, "product", *a, *b);
        }
    }
}

#[test]
fn comparisons_agree_with_the_hardware() {
    let list = samples();
    for a in &list {
        for b in &list {
            assert_eq!(num(*a).less_than(num(*b)), *a < *b);
            assert_eq!(num(*a).at_most(num(*b)), *a <= *b);
            assert_eq!(num(*a) == num(*b), *a == *b);
        }
    }
}

#[test]
fn classes_and_negation_agree_with_the_hardware() {
    for a in samples() {
        assert_eq!(num(a).is_nan(), a.is_nan());
        assert_eq!(num(a).negate().to_bits(), (-a).to_bits());
        assert_eq!(num(a).to_bits(), a.to_bits());
    }
}

#[test]
fn counts_convert_as_the_hardware_does() {
    let mut counts: Vec<usize> = vec![0, 1, 2, 3, 7, 10, 1000, 4294967295, 4294967296];
    for shift in 52..64 {
        let p: usize = 1 << shift;
        for d in 0..6 {
            counts.push(p + d);
            counts.push(p - d);
            counts.push(p + (1 << (shift - 53).max(0)) + d);
            counts.push(p + (3 << (shift - 53).max(0)) - d);
        }
    }
    counts.push(usize::MAX);
    counts.push(usize::MAX - 1024);
    counts.push(usize::MAX - 1025);
    for n in counts {
        assert_eq!(Binary64::from_count(n).to_bits(), (n as f64).to_bits(), "{n}");
    }
}

#[test]
fn sums_commute_and_zero_is_neutral() {
    assert_eq!(num(0.1).sum(num(0.2)).to_bits(), num(0.2).sum(num(0.1)).to_bits());
    assert_eq!(num(0.1).sum(num(0.0)).to_bits(), 0.1f64.to_bits());
}

#[test]
fn one_and_two_tenths_round_up() {
    assert_eq!(num(0.1).sum(num(0.2)).to_bits(), 0x3fd3_3333_3333_3334);
    assert_eq!(num(0.1).product(num(3.0)).to_bits(), 0x3fd3_3333_3333_3334);
}

#[test]
fn rounding_goes_to_the_nearest_and_ties_to_even() {
    let tiny = |bits: u64| Binary64::from_bits(bits);
    let half = num(0.5);
    // Halves of multiples of the smallest positive number: five halves is a tie
    // between two and three, seven halves between three and four.
    assert_eq!(tiny(5).product(half).to_bits(), 2);
    assert_eq!(tiny(7).product(half).to_bits(), 4);
    assert_eq!(tiny(11).product(num(0.25)).to_bits(), 3);
    // A sum that needs one bit more than there is room for.
    let big = 9007199254740992.0;
    assert_eq!(num(big).sum(num(1.0)).to_bits(), f64::to_bits(big));
    assert_eq!(num(big + 2.0).sum(num(1.0)).to_bits(), f64::to_bits(big + 4.0));
    // Beyond the largest finite number lies infinity.
    assert_eq!(num(f64::MAX).sum(num(f64::MAX)).to_bits(), f64::INFINITY.to_bits());
}
