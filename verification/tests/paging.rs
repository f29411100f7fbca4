use mpmc_ringbuf::ceil_div;

#[test]
fn ceil_div_rounds_up() {
    assert_eq!(ceil_div(0, 4096), 0);
    assert_eq!(ceil_div(1, 4096), 1);
    assert_eq!(ceil_div(4095, 4096), 1);
    assert_eq!(ceil_div(4096, 4096), 1);
    assert_eq!(ceil_div(4097, 4096), 2);
    assert_eq!(ceil_div(12000, 4096), 3);
    assert_eq!(ceil_div(7, 1), 7);
    assert_eq!(ceil_div(u64::MAX, 1), u64::MAX);
    assert_eq!(ceil_div(u64::MAX, u64::MAX), 1);
    assert_eq!(ceil_div(u64::MAX, 2), 1 << 63);
}

#[test]
fn ceil_div_agrees_with_rounding_the_quotient_up() {
    for d in [1u64, 2, 3, 7, 16, 100, 4096, 65_537] {
        for n in [0u64, 1, 2, 3, 15, 16, 17, 99, 100, 101, 4095, 4096, 4097, 1_000_000] {
            let rounded = math::round::ceil(n as f64 / d as f64, 0) as u64;
            assert_eq!(ceil_div(n, d), rounded, "{} / {}", n, d);
        }
    }
}
