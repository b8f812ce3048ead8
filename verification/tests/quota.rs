use tallystick::Quota;

#[test]
fn quota_test() {
    // Static
    // ------
    assert!(Quota::Static(50).threshold(100, 1) == 50);
    assert!(Quota::Static(50).threshold(101, 1) == 50);

    // Integers
    // --------
    assert!(Quota::Droop.threshold(100, 1) == 51);
    assert!(Quota::Droop.threshold(101, 1) == 51);
    assert!(Quota::Droop.threshold(102, 1) == 52);

    assert!(Quota::Droop.threshold(100, 2) == 34);
    assert!(Quota::Droop.threshold(101, 2) == 34);
    assert!(Quota::Droop.threshold(102, 2) == 35);

    assert!(Quota::Hare.threshold(100, 1) == 100);
    assert!(Quota::Hare.threshold(101, 1) == 101);
    assert!(Quota::Hare.threshold(102, 1) == 102);

    assert!(Quota::Hare.threshold(100, 2) == 50);
    assert!(Quota::Hare.threshold(101, 2) == 50); // 50.5 rounded down
    assert!(Quota::Hare.threshold(102, 2) == 51);

    assert!(Quota::Imperiali.threshold(100, 1) == 33);
    assert!(Quota::Imperiali.threshold(101, 1) == 33);
    assert!(Quota::Imperiali.threshold(102, 1) == 34);

    assert!(Quota::Imperiali.threshold(100, 2) == 25);
    assert!(Quota::Imperiali.threshold(101, 2) == 25); // 25.25 rounded down
    assert!(Quota::Imperiali.threshold(102, 2) == 25); // 25.50 rounded down
}

#[test]
#[should_panic]
fn quota_panic_test() {
    // The Hagenbach-Bischoff quota cannot be taken in whole numbers.
    assert!(Quota::Hagenbach.threshold(100, 1) == 50);
}

#[test]
fn quota_is_defined_tells_when_threshold_can_be_called() {
    assert!(Quota::Droop.is_defined(100, 1));
    assert!(!Quota::Droop.is_defined(100, u64::MAX));
    assert!(!Quota::Droop.is_defined(u64::MAX, 0));
    assert!(Quota::Droop.is_defined(u64::MAX, 1));
    assert!(!Quota::<u64>::Hagenbach.is_defined(100, 1));
    assert!(Quota::Hare.is_defined(0, 1));
    assert!(!Quota::Hare.is_defined(100, 0));
    assert!(Quota::Imperiali.is_defined(100, u64::MAX - 2));
    assert!(!Quota::Imperiali.is_defined(100, u64::MAX - 1));
    assert!(Quota::Static(7).is_defined(u64::MAX, u64::MAX));
}

#[test]
fn quota_thresholds_at_the_edges() {
    assert_eq!(Quota::Droop.threshold(0, 0), 1);
    assert_eq!(Quota::Droop.threshold(u64::MAX, 1), u64::MAX / 2 + 1);
    assert_eq!(Quota::Hare.threshold(u64::MAX, 1), u64::MAX);
    assert_eq!(Quota::Imperiali.threshold(9, 1), 3);
    assert_eq!(Quota::Static(0).threshold(5, 5), 0);
}
