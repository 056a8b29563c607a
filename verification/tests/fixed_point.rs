use raytracer::utilities::fixed::{floor_div, isqrt, EPS, INFINITY, ONE};

#[test]
fn constants_hold_their_values() {
    assert_eq!(ONE, 65536);
    assert_eq!(EPS, 65);
    assert_eq!(INFINITY, i64::MAX);
}

#[test]
fn isqrt_rounds_down() {
    assert_eq!(isqrt(0), 0);
    assert_eq!(isqrt(1), 1);
    assert_eq!(isqrt(2), 1);
    assert_eq!(isqrt(3), 1);
    assert_eq!(isqrt(4), 2);
    assert_eq!(isqrt(24), 4);
    assert_eq!(isqrt(25), 5);
    assert_eq!(isqrt(26), 5);
}

#[test]
fn isqrt_of_large_numbers() {
    assert_eq!(isqrt(1u128 << 62), 1u64 << 31);
    assert_eq!(isqrt((1u128 << 127) - 1), 13043817825332782212);
    assert_eq!(isqrt(u128::MAX), u64::MAX);
    let r: u128 = 0xffff_ffff_ffff_ffff;
    assert_eq!(isqrt(r * r), u64::MAX);
    assert_eq!(isqrt(r * r - 1), u64::MAX - 1);
}

#[test]
fn isqrt_brackets_its_argument() {
    let mut n: u128 = 1;
    while n < (1u128 << 120) {
        let r = isqrt(n) as u128;
        assert!(r * r <= n);
        assert!((r + 1) * (r + 1) > n);
        n = n * 7 + 3;
    }
}

#[test]
fn floor_div_rounds_towards_minus_infinity() {
    assert_eq!(floor_div(7, 2), 3);
    assert_eq!(floor_div(-7, 2), -4);
    assert_eq!(floor_div(7, -2), -4);
    assert_eq!(floor_div(-7, -2), 3);
    assert_eq!(floor_div(-8, 2), -4);
    assert_eq!(floor_div(8, -2), -4);
    assert_eq!(floor_div(0, 5), 0);
    assert_eq!(floor_div(-1, 5), -1);
    assert_eq!(floor_div(1, -5), -1);
    assert_eq!(floor_div(ONE as i128, 2), 32768);
}

#[test]
fn floor_div_at_the_edges_of_the_range() {
    assert_eq!(floor_div(i128::MAX, 1), i128::MAX);
    assert_eq!(floor_div(i128::MIN + 1, 1), i128::MIN + 1);
    assert_eq!(floor_div(i128::MIN + 1, -1), i128::MAX);
    assert_eq!(floor_div(i128::MAX, i128::MAX), 1);
    assert_eq!(floor_div(i128::MIN + 1, i128::MAX), -1);
    assert_eq!(floor_div(i128::MIN + 2, i128::MAX), -1);
    assert_eq!(floor_div(5, i128::MIN + 1), -1);
}
