use tile_render::{div_ceil, isqrt, isqrt_ceil};

#[test]
fn isqrt_is_the_rounded_down_root() {
    assert_eq!(isqrt(0), 0);
    assert_eq!(isqrt(1), 1);
    assert_eq!(isqrt(2), 1);
    assert_eq!(isqrt(3), 1);
    assert_eq!(isqrt(4), 2);
    assert_eq!(isqrt(99), 9);
    assert_eq!(isqrt(100), 10);
    assert_eq!(isqrt(101), 10);
    assert_eq!(isqrt(u128::MAX), u64::MAX);
    assert_eq!(isqrt((u64::MAX as u128) * (u64::MAX as u128)), u64::MAX);
    assert_eq!(isqrt((u64::MAX as u128) * (u64::MAX as u128) - 1), u64::MAX - 1);
    for n in 0..5000u128 {
        let r = isqrt(n) as u128;
        assert!(r * r <= n && n < (r + 1) * (r + 1));
    }
}

#[test]
fn isqrt_ceil_is_the_rounded_up_root() {
    assert_eq!(isqrt_ceil(0), 0);
    assert_eq!(isqrt_ceil(1), 1);
    assert_eq!(isqrt_ceil(2), 2);
    assert_eq!(isqrt_ceil(4), 2);
    assert_eq!(isqrt_ceil(5), 3);
    assert_eq!(isqrt_ceil(14450), 121);
    assert_eq!(isqrt_ceil(28900), 170);
    assert_eq!(isqrt_ceil(u128::MAX), 1 << 64);
    for n in 1..5000u128 {
        let r = isqrt_ceil(n);
        assert!(r * r >= n && (r - 1) * (r - 1) < n);
    }
}

#[test]
fn div_ceil_rounds_up() {
    assert_eq!(div_ceil(0, 7), 0);
    assert_eq!(div_ceil(1, 7), 1);
    assert_eq!(div_ceil(7, 7), 1);
    assert_eq!(div_ceil(8, 7), 2);
    assert_eq!(div_ceil(14, 7), 2);
    assert_eq!(div_ceil(u128::MAX, 1), u128::MAX);
    assert_eq!(div_ceil(u128::MAX, 2), 1 << 127);
    assert_eq!(div_ceil(u128::MAX, u128::MAX), 1);
}
