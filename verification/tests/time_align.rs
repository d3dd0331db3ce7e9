use statmon::time::Time;

#[test]
fn tick_alignment_fills_the_second() {
    let t = Time::new(100, 0);
    assert_eq!(t.timestamp(), 100);
    assert_eq!(t.align_ns(), 999_999_999);
    let mut t2 = Time::new(100, 999_999_999);
    assert_eq!(t2.align_ns(), 0);
    t2.update(101, 250_000_000);
    assert_eq!(t2.timestamp(), 101);
    assert_eq!(t2.align_ns(), 749_999_999);
}
