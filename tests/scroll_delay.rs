#[test]
fn default_speed_base_delay() {
    // speed=100 (default): base_delay = 1000 + 100*90 = 10000 µs
    let base = 1000.0 + 100.0 * 90.0;
    assert_eq!(base, 10000.0);
}
