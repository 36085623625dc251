use ledger_hub::double::{over_a_cent_apart, within_a_cent, Double, CENT_BITS};

fn double(x: f64) -> Double {
    Double::from_bits(x.to_bits())
}

// A simple generator of bit patterns.
fn patterns(seed: u64, n: usize) -> Vec<u64> {
    let mut x = seed;
    let mut r = Vec::new();
    for _ in 0..n {
        x = x.wrapping_mul(6364136223846793005).wrapping_add(1442695040888963407);
        r.push(x ^ (x >> 29));
    }
    r
}

#[test]
fn sums_round_as_the_hardware_does() {
    let a = patterns(1, 2000);
    let b = patterns(2, 2000);
    for i in 0..a.len() {
        // Non-negative values of any exponent, the second often close to the first.
        let x = a[i] % 0x7FE0_0000_0000_0000;
        let y = if i % 2 == 0 {
            b[i] % 0x7FE0_0000_0000_0000
        } else {
            x.saturating_sub(b[i] % 0x0300_0000_0000_0000)
        };
        let sum = f64::from_bits(x) + f64::from_bits(y);
        assert_eq!(
            Double::from_bits(x).plus(Double::from_bits(y)).to_bits(),
            sum.to_bits(),
            "{x:x} {y:x}"
        );
    }
}

#[test]
fn products_round_as_the_hardware_does() {
    let a = patterns(3, 2000);
    let b = patterns(4, 2000);
    for i in 0..a.len() {
        let x = a[i] % 0x3FF0_0000_0000_0001;
        let y = if i % 2 == 0 {
            b[i] % 0x3FF0_0000_0000_0001
        } else {
            0x3FF0_0000_0000_0000 - b[i] % 0x0100_0000_0000_0000
        };
        let product = f64::from_bits(x) * f64::from_bits(y);
        assert_eq!(
            Double::from_bits(x).times(Double::from_bits(y)).to_bits(),
            product.to_bits(),
            "{x:x} {y:x}"
        );
    }
}

#[test]
fn ratios_round_as_the_hardware_does() {
    for n in 1..60u64 {
        for m in 0..=n {
            let ratio = m as f64 / n as f64;
            assert_eq!(Double::ratio(m, n).to_bits(), ratio.to_bits(), "{m}/{n}");
        }
    }
    let ratio = 1234567.0_f64 / 1048576.0;
    assert!(ratio > 1.0);
    assert_eq!(
        Double::ratio(999_983, 1_048_576).to_bits(),
        (999_983.0_f64 / 1_048_576.0).to_bits()
    );
}

#[test]
fn cents_compare_as_the_hardware_does() {
    assert_eq!(CENT_BITS, 0.01_f64.to_bits());
    for c in 0..3000u64 {
        let x = c as f64 / 100.0;
        for step in [-3i64, -2, -1, 0, 1, 2, 3] {
            let y = (c as i64 + step) as f64 / 100.0;
            let gap = (x.abs() - y.abs()).abs();
            assert_eq!(over_a_cent_apart(double(x), double(y)), gap > 0.01, "{x} {y}");
            assert_eq!(within_a_cent(double(x), double(y)), gap < 0.01, "{x} {y}");
        }
    }
    for (i, p) in patterns(5, 3000).into_iter().enumerate() {
        let x = f64::from_bits(p);
        let q = if i % 2 == 0 { p.wrapping_add(1 << 51) } else { p ^ (1 << 63) };
        let y = f64::from_bits(q);
        let gap = (x.abs() - y.abs()).abs();
        assert_eq!(over_a_cent_apart(double(x), double(y)), gap > 0.01, "{x} {y}");
        assert_eq!(within_a_cent(double(x), double(y)), gap < 0.01, "{x} {y}");
    }
}

#[test]
fn signs_are_told_apart() {
    for x in [0.0, -0.0, 1.0, -1.0, f64::INFINITY, f64::NEG_INFINITY, f64::NAN, -f64::NAN, -5e-324] {
        assert_eq!(double(x).is_negative(), x < 0.0, "{x}");
    }
    assert_eq!(Double::zero().to_bits(), 0.0_f64.to_bits());
    assert_eq!(double(0.25).at_most(double(0.5)), double(0.25));
    assert_eq!(double(0.75).at_most(double(0.5)), double(0.5));
}
