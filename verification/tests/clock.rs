use fluxdb::replacer::ClockReplacer;

#[test]
fn test_clock_replacer_eviction_order() {
    let mut replacer = ClockReplacer::new(4);
    replacer.unpin(0);
    replacer.unpin(1);
    replacer.unpin(2);
    replacer.unpin(3);
    let v1 = replacer.victim().unwrap();
    assert_eq!(v1, 0);
    let v2 = replacer.victim().unwrap();
    assert_eq!(v2, 1);
    replacer.pin(2);
    let v3 = replacer.victim().unwrap();
    assert_eq!(v3, 3);
    let result = replacer.victim();
    assert!(result.is_err());
}
