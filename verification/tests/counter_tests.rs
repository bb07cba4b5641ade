use aarc::StickyCounter;

#[test]
fn test_counter_is_sticky() {
    let mut x = StickyCounter::default();
    assert!(x.try_increment().is_ok());
    assert_eq!(x.decrement(), 2);
    assert_eq!(x.decrement(), 1); // this decrement should've taken us to zero.
    assert!(x.try_increment().is_err()); // further increments should fail.
    assert!(x.try_increment().is_err());
    assert_eq!(x.load(), 0);
}

#[test]
fn test_counter_starts_at_one() {
    let x = StickyCounter::default();
    assert_eq!(x.load(), 1);
}

#[test]
fn test_counter_try_increment_reports_prior_count() {
    let mut x = StickyCounter::default();
    assert_eq!(x.try_increment().unwrap(), 1);
    assert_eq!(x.try_increment().unwrap(), 2);
    assert_eq!(x.load(), 3);
}

#[test]
fn test_counter_sealed_load_stays_zero() {
    let mut x = StickyCounter::default();
    assert_eq!(x.decrement(), 1);
    assert_eq!(x.load(), 0);
    assert!(x.try_increment().is_err());
    assert_eq!(x.load(), 0);
}
