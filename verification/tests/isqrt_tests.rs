use tsp_two_opt::isqrt::isqrt;

#[test]
fn isqrt_of_small_values() {
    assert_eq!(isqrt(0), 0);
    assert_eq!(isqrt(1), 1);
    assert_eq!(isqrt(2), 1);
    assert_eq!(isqrt(3), 1);
    assert_eq!(isqrt(4), 2);
    assert_eq!(isqrt(8), 2);
    assert_eq!(isqrt(9), 3);
}

#[test]
fn isqrt_rounds_down() {
    assert_eq!(isqrt(24), 4);
    assert_eq!(isqrt(25), 5);
    assert_eq!(isqrt(26), 5);
    assert_eq!(isqrt(1250), 35);
    assert_eq!(isqrt(12500), 111);
}

#[test]
fn isqrt_of_large_values() {
    assert_eq!(isqrt((1u128 << 66) - 1), 0x2_0000_0000 - 1);
    let r = 0x1_2345_6789u128;
    assert_eq!(isqrt(r * r), r as u64);
    assert_eq!(isqrt(r * r + 1), r as u64);
    assert_eq!(isqrt(r * r - 1), (r - 1) as u64);
}
