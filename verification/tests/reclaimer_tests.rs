use aarc::Arc;
use aarc::AsPtr;
use aarc::AtomicArc;
use aarc::StandardReclaimer;

#[test]
fn test_protect() {
    let mut r = StandardReclaimer::<i32>::new();
    let slot = r.get_or_claim_slot();
    let guard1 = r.protect(slot);
    let guard2 = r.protect(slot);
    assert_eq!(r.critical_sections(slot), 2);
    guard1.leave(&mut r);
    guard2.leave(&mut r);
    assert_eq!(r.critical_sections(slot), 0);
}

#[test]
fn test_protect_and_retire() {
    // A retirement published while a critical section is open must wait for
    // the section to close; its drop runs when the section ends.
    let mut r = StandardReclaimer::<i32>::new();
    let s = r.get_or_claim_slot();
    let arc = Arc::new(&mut r, 7);
    let guard = r.protect(s);
    arc.retire(&mut r, s);
    assert_eq!(r.take_graveyard().len(), 0);
    guard.leave(&mut r);
    assert_eq!(r.take_graveyard().len(), 1);
}

#[test]
fn test_protect_ptr() {
    let mut r = StandardReclaimer::<i32>::new();
    let s = r.get_or_claim_slot();
    let test_ptr = usize::MAX;
    let guard = r.protect_ptr(s, test_ptr);
    let entry = guard.entry();
    assert_eq!(r.snapshot_ptr(s, entry), Some(test_ptr));
    guard.release(&mut r);
    assert_eq!(r.snapshot_ptr(s, entry), None);
}

#[test]
fn test_protect_ptr_and_release() {
    // A retirement of a snapshotted pointer must wait for the snapshot to
    // be released; its drop runs on release.
    let mut r = StandardReclaimer::<i32>::new();
    let s = r.get_or_claim_slot();
    let arc = Arc::new(&mut r, 5);
    let guard = r.protect_ptr(s, Arc::as_ptr(&arc));
    arc.retire(&mut r, s);
    assert_eq!(r.take_graveyard().len(), 0);
    guard.release(&mut r);
    assert_eq!(r.take_graveyard().len(), 1);
}

#[test]
fn test_reclaim_after_leave() {
    // One participant reads a pointer inside a protected region; another
    // replaces it and retires the displaced block. The drop waits for the
    // first participant's region and runs when it closes.
    let mut r = StandardReclaimer::new();
    let sa = r.get_or_claim_slot();
    let sb = r.get_or_claim_slot();
    let cell = AtomicArc::new(&mut r, Some(1));

    let region = r.protect(sa);
    let read = cell.load(&mut r, sa).unwrap();
    read.release(&mut r);

    let two = Arc::new(&mut r, 2);
    cell.store(&mut r, sb, Some(&two));
    r.cleanup_owned_slot(sb);
    assert_eq!(r.take_graveyard().len(), 0);

    region.leave(&mut r);
    assert_eq!(r.take_graveyard().len(), 1);
}

#[test]
fn test_reentrant_protection_defers_until_outermost() {
    let mut r = StandardReclaimer::<i32>::new();
    let s = r.get_or_claim_slot();
    let outer = r.protect(s);
    let inner = r.protect(s);
    let arc = Arc::new(&mut r, 3);
    arc.retire(&mut r, s);
    inner.leave(&mut r);
    assert_eq!(r.take_graveyard().len(), 0);
    outer.leave(&mut r);
    assert_eq!(r.take_graveyard().len(), 1);
}

#[test]
fn test_leave_slot_flushes() {
    let mut r = StandardReclaimer::<i32>::new();
    let s = r.get_or_claim_slot();
    let arc = Arc::new(&mut r, 11);
    arc.retire(&mut r, s);
    r.leave_slot(s);
    assert_eq!(r.take_graveyard().len(), 1);
    // The slot is reusable by the next claimant.
    let s2 = r.get_or_claim_slot();
    assert_eq!(s2, s);
}

#[test]
fn test_cleanup_runs_unpinned_drops() {
    let mut r = StandardReclaimer::<i32>::new();
    let s = r.get_or_claim_slot();
    let a = Arc::new(&mut r, 1);
    let b = Arc::new(&mut r, 2);
    a.retire(&mut r, s);
    b.retire(&mut r, s);
    r.cleanup();
    assert_eq!(r.take_graveyard().len(), 2);
}

#[test]
fn test_clone_then_drop_leaves_counts() {
    // Clone then drop of a handle leaves all counts unchanged once
    // reclamation has quiesced.
    let mut r = StandardReclaimer::<i32>::new();
    let s = r.get_or_claim_slot();
    let a = Arc::new(&mut r, 3);
    assert_eq!(Arc::strong_count(&a, &r), 1);
    let b = Arc::clone_in(&a, &mut r);
    assert_eq!(Arc::strong_count(&a, &r), 2);
    b.retire(&mut r, s);
    r.cleanup();
    assert_eq!(Arc::strong_count(&a, &r), 1);
    assert_eq!(Arc::weak_count(&a, &r), 0);
}

#[test]
fn test_cycle_through_cell_never_reclaims() {
    // A self-referential strong cycle: the block's own cell keeps a strong
    // count on it, so the value is never dropped after the last handle
    // goes away. Weak edges must be used to break cycles.
    struct Node {
        next: AtomicArc,
    }
    let mut r = StandardReclaimer::<Node>::new();
    let s = r.get_or_claim_slot();
    let cell = AtomicArc::new(&mut r, None);
    let cell_alias = cell.alias();
    let n = Arc::new(&mut r, Node { next: cell });
    let idx = Arc::as_ptr(&n);
    cell_alias.store(&mut r, s, Some(&n));
    n.retire(&mut r, s);
    r.cleanup();
    assert!(r.take_graveyard().is_empty());
    assert!(r.value_live(idx));
}

#[test]
fn test_weak_only_block_drops_value_keeps_memory() {
    // A block reachable only through weak handles: its value is dropped
    // promptly; the memory is freed when the last weak handle drops.
    let mut r = StandardReclaimer::<i32>::new();
    let s = r.get_or_claim_slot();
    let a = Arc::new(&mut r, 4);
    let idx = Arc::as_ptr(&a);
    let w = Arc::downgrade(&a, &mut r);
    a.retire(&mut r, s);
    r.cleanup();
    assert_eq!(r.take_graveyard().len(), 1);
    assert!(r.is_allocated(idx));
    assert!(!r.value_live(idx));
    assert!(w.upgrade(&mut r).is_none());
    w.retire(&mut r, s);
    r.cleanup();
    assert!(!r.is_allocated(idx));
}

#[test]
fn test_sticky_race_upgrade_vs_last_drop() {
    // Racing an upgrade against the final strong release: the upgrade
    // either wins while the value is still live, or the counter has sealed,
    // the upgrade fails, and the value was dropped exactly once.
    let mut r = StandardReclaimer::<i32>::new();
    let s = r.get_or_claim_slot();
    let a = Arc::new(&mut r, 1);
    let w = Arc::downgrade(&a, &mut r);

    // Upgrade wins: the count goes from one to two, and the later release
    // is observed as taking it back down, never to zero.
    let u = w.upgrade(&mut r).unwrap();
    assert_eq!(Arc::strong_count(&u, &r), 2);
    a.retire(&mut r, s);
    r.cleanup();
    assert_eq!(Arc::strong_count(&u, &r), 1);
    assert_eq!(r.take_graveyard().len(), 0);

    // The last release seals the counter: the upgrade now fails and the
    // value was dropped exactly once.
    u.retire(&mut r, s);
    r.cleanup();
    assert!(w.upgrade(&mut r).is_none());
    assert!(w.upgrade(&mut r).is_none());
    assert_eq!(r.take_graveyard().len(), 1);
    w.retire(&mut r, s);
    r.cleanup();
}
