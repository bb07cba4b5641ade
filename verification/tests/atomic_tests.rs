use aarc::Arc;
use aarc::AsPtr;
use aarc::AtomicArc;
use aarc::Guard;
use aarc::StandardReclaimer;

#[test]
fn test_new_with_value() {
    let mut r = StandardReclaimer::new();
    let s = r.get_or_claim_slot();
    let atomic = AtomicArc::new(&mut r, Some(42));
    let guard = atomic.load(&mut r, s).unwrap();
    assert_eq!(*Guard::deref(&guard, &r), 42);
    guard.release(&mut r);
}

#[test]
fn test_new_with_none() {
    let mut r = StandardReclaimer::<i32>::new();
    let s = r.get_or_claim_slot();
    let atomic = AtomicArc::new(&mut r, None);
    assert!(atomic.load(&mut r, s).is_none());
}

#[test]
fn test_swap() {
    let mut r = StandardReclaimer::new();
    let s = r.get_or_claim_slot();
    let atomic = AtomicArc::new(&mut r, Some(10));
    let arc = Arc::new(&mut r, 20);

    let old = atomic.swap(&mut r, Some(&arc));
    assert!(old.is_some());
    let old_arc = old.unwrap();
    assert_eq!(*Arc::deref(&old_arc, &r), 10);
    old_arc.retire(&mut r, s);

    let guard = atomic.load(&mut r, s).unwrap();
    assert_eq!(*Guard::deref(&guard, &r), 20);
    guard.release(&mut r);
}

#[test]
fn test_swap_none() {
    let mut r = StandardReclaimer::<i32>::new();
    let s = r.get_or_claim_slot();
    let atomic = AtomicArc::new(&mut r, Some(10));
    let old = atomic.swap(&mut r, None);

    assert!(old.is_some());
    let old_arc = old.unwrap();
    assert_eq!(*Arc::deref(&old_arc, &r), 10);
    old_arc.retire(&mut r, s);
    assert!(atomic.load(&mut r, s).is_none());
}

#[test]
fn test_clone() {
    let mut r = StandardReclaimer::new();
    let s = r.get_or_claim_slot();
    let atomic = AtomicArc::new(&mut r, Some(42));
    let cloned = atomic.clone_in(&mut r);

    let guard1 = atomic.load(&mut r, s).unwrap();
    let guard2 = cloned.load(&mut r, s).unwrap();

    assert_eq!(*Guard::deref(&guard1, &r), 42);
    assert_eq!(*Guard::deref(&guard2, &r), 42);
    guard1.release(&mut r);
    guard2.release(&mut r);
}

#[test]
fn test_clone_none() {
    let mut r = StandardReclaimer::<i32>::new();
    let s = r.get_or_claim_slot();
    let atomic = AtomicArc::new(&mut r, None);
    let cloned = atomic.clone_in(&mut r);

    assert!(atomic.load(&mut r, s).is_none());
    assert!(cloned.load(&mut r, s).is_none());
}

#[test]
fn test_compare_exchange_success_with_arc() {
    let mut r = StandardReclaimer::new();
    let s = r.get_or_claim_slot();
    let arc1 = Arc::new(&mut r, 10);
    let arc2 = Arc::new(&mut r, 20);
    let atomic = AtomicArc::new(&mut r, Some(10));
    atomic.store(&mut r, s, Some(&arc1));

    let result = atomic.compare_exchange(&mut r, s, Some(Arc::as_ptr(&arc1)), Some(&arc2));
    assert!(result.is_ok());

    let guard = atomic.load(&mut r, s).unwrap();
    assert_eq!(*Guard::deref(&guard, &r), 20);
    guard.release(&mut r);
}

#[test]
fn test_compare_exchange_failure_with_arc() {
    let mut r = StandardReclaimer::new();
    let s = r.get_or_claim_slot();
    let arc1 = Arc::new(&mut r, 10);
    let arc2 = Arc::new(&mut r, 20);
    let arc3 = Arc::new(&mut r, 30);
    let atomic = AtomicArc::new(&mut r, Some(10));
    atomic.store(&mut r, s, Some(&arc1));

    // Try to compare with arc2 (which is not the current value)
    let result = atomic.compare_exchange(&mut r, s, Some(Arc::as_ptr(&arc2)), Some(&arc3));
    assert!(result.is_err());
    if let Err(Some(observed)) = result {
        observed.release(&mut r);
    }

    // Value should remain unchanged
    let guard = atomic.load(&mut r, s).unwrap();
    assert_eq!(*Guard::deref(&guard, &r), 10);
    guard.release(&mut r);
}

#[test]
fn test_compare_exchange_with_guard() {
    let mut r = StandardReclaimer::new();
    let s = r.get_or_claim_slot();
    let arc1 = Arc::new(&mut r, 10);
    let arc2 = Arc::new(&mut r, 20);
    let atomic = AtomicArc::new(&mut r, Some(10));
    atomic.store(&mut r, s, Some(&arc1));

    let guard = atomic.load(&mut r, s).unwrap();
    let result = atomic.compare_exchange(&mut r, s, Some(Guard::as_ptr(&guard)), Some(&arc2));
    assert!(result.is_ok());
    guard.release(&mut r);

    let new_guard = atomic.load(&mut r, s).unwrap();
    assert_eq!(*Guard::deref(&new_guard, &r), 20);
    new_guard.release(&mut r);
}

#[test]
fn test_from_arc() {
    let mut r = StandardReclaimer::new();
    let s = r.get_or_claim_slot();
    let arc = Arc::new(&mut r, 42);
    let atomic = AtomicArc::new(&mut r, Some(0));
    atomic.store(&mut r, s, Some(&arc));

    let guard = atomic.load(&mut r, s).unwrap();
    assert_eq!(*Guard::deref(&guard, &r), 42);
    assert_eq!(*Arc::deref(&arc, &r), 42);
    guard.release(&mut r);
}

#[test]
fn test_atomic_from_arc_constructor() {
    let mut r = StandardReclaimer::new();
    let s = r.get_or_claim_slot();
    let arc = Arc::new(&mut r, 7);
    let atomic = AtomicArc::from_arc(&mut r, &arc);
    assert_eq!(Arc::strong_count(&arc, &r), 2);
    let guard = atomic.load(&mut r, s).unwrap();
    assert_eq!(Guard::as_ptr(&guard), Arc::as_ptr(&arc));
    assert_eq!(*Guard::deref(&guard, &r), 7);
    guard.release(&mut r);
}

#[test]
fn test_store_then_load_same_block() {
    let mut r = StandardReclaimer::new();
    let s = r.get_or_claim_slot();
    let x = Arc::new(&mut r, 9);
    let cell = AtomicArc::new(&mut r, None);
    cell.store(&mut r, s, Some(&x));
    let g = cell.load(&mut r, s).unwrap();
    assert_eq!(Guard::as_ptr(&g), Arc::as_ptr(&x));
    assert_eq!(*Guard::deref(&g, &r), 9);
    g.release(&mut r);
}

#[test]
fn test_repeated_load_sees_stored_value() {
    let mut r = StandardReclaimer::new();
    let s = r.get_or_claim_slot();
    let x = Arc::new(&mut r, 5);
    let cell = AtomicArc::new(&mut r, None);
    cell.store(&mut r, s, Some(&x));
    let g1 = cell.load(&mut r, s).unwrap();
    let g2 = cell.load(&mut r, s).unwrap();
    assert_eq!(*Guard::deref(&g1, &r), 5);
    assert_eq!(*Guard::deref(&g2, &r), 5);
    assert_eq!(Guard::as_ptr(&g1), Guard::as_ptr(&g2));
    g1.release(&mut r);
    g2.release(&mut r);
}

#[test]
fn test_null_cell_behaviors() {
    let mut r = StandardReclaimer::<i32>::new();
    let s = r.get_or_claim_slot();
    let cell = AtomicArc::new(&mut r, None);
    assert!(cell.load(&mut r, s).is_none());

    // Storing null into a null cell changes no counts and drops nothing.
    cell.store(&mut r, s, None);
    assert!(cell.load(&mut r, s).is_none());
    assert_eq!(r.take_graveyard().len(), 0);

    // compare_exchange(null, _) succeeds exactly while the cell is null.
    assert!(cell.compare_exchange(&mut r, s, None, None).is_ok());
    let one = Arc::new(&mut r, 1);
    assert!(cell.compare_exchange(&mut r, s, None, Some(&one)).is_ok());
    let res = cell.compare_exchange(&mut r, s, None, None);
    assert!(res.is_err());
    if let Err(Some(observed)) = res {
        assert_eq!(*Guard::deref(&observed, &r), 1);
        observed.release(&mut r);
    }
}
