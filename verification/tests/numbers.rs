use rosu_mania::binary64::Binary64;

fn b(x: f64) -> Binary64 {
    Binary64::from_bits(x.to_bits())
}

const SAMPLES: [f64; 22] = [
    0.0,
    -0.0,
    1.0,
    -1.0,
    0.5,
    1.5,
    2.5,
    -2.5,
    0.49999999999999994,
    99.9,
    1e-300,
    5e-324,
    4294967294.5,
    4294967295.0,
    4294967296.0,
    9007199254740993.0,
    9.3e18,
    1e19,
    -9.3e18,
    1e300,
    f64::INFINITY,
    f64::NEG_INFINITY,
];

#[test]
fn comparisons_agree_with_the_machine() {
    let mut values = SAMPLES.to_vec();
    values.push(f64::NAN);
    values.push(-f64::NAN);
    for &x in &values {
        for &y in &values {
            assert_eq!(b(x).less(b(y)), x < y, "{x} < {y}");
            assert_eq!(b(x).at_most(b(y)), x <= y, "{x} <= {y}");
            assert_eq!(b(x).equals(b(y)), x == y, "{x} == {y}");
            assert_eq!(b(x).rank() < b(y).rank(), x.total_cmp(&y).is_lt(), "{x} {y}");
            assert_eq!(b(x).rank() == b(y).rank(), x.total_cmp(&y).is_eq(), "{x} {y}");
        }
        assert_eq!(b(x).finite(), x.is_finite());
        assert_eq!(b(x).nan(), x.is_nan());
        assert_eq!(b(x).integral(), x.is_finite() && x.fract() == 0.0);
    }
}

#[test]
fn conversions_agree_with_the_machine() {
    let mut values = SAMPLES.to_vec();
    values.push(f64::NAN);
    for &x in &values {
        assert_eq!(b(x).to_u32(), x as u32, "{x} as u32");
        assert_eq!(b(x).to_u64(), x as u64, "{x} as u64");
        assert_eq!(b(x).to_usize(), x as usize, "{x} as usize");
        assert_eq!(b(x).to_i64(), x as i64, "{x} as i64");
        assert_eq!(b(x).round_within(u32::MAX), x.round().max(0.0) as u32, "{x} rounded");
        assert_eq!(
            b(x).round_even_within(u32::MAX),
            x.round_ties_even().max(0.0) as u32,
            "{x} rounded to even"
        );
        assert_eq!(b(x).round_within(7), x.round().max(0.0).min(7.0) as u32, "{x} within 7");
    }
}

#[test]
fn whole_numbers_become_the_nearest_double() {
    let numbers = [
        0u64,
        1,
        2,
        3,
        255,
        4294967295,
        9007199254740991,
        9007199254740992,
        9007199254740993,
        9007199254740994,
        9007199254740995,
        18014398509481985,
        18014398509481986,
        18014398509481987,
        9223372036854775807,
        18446744073709550591,
        18446744073709550592,
        18446744073709551615,
    ];
    for n in numbers {
        assert_eq!(Binary64::from_u64(n).bits, (n as f64).to_bits(), "{n}");
    }
    assert_eq!(Binary64::from_u32(u32::MAX).bits, f64::from(u32::MAX).to_bits());
}
