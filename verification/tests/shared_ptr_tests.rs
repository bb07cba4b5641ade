use aarc::Arc;
use aarc::AsPtr;
use aarc::AtomicArc;
use aarc::Guard;
use aarc::StandardReclaimer;
use aarc::Weak;

#[test]
fn basic_test() {
    let mut r = StandardReclaimer::new();
    let s = r.get_or_claim_slot();
    let x = Arc::new(&mut r, 55usize);
    assert_eq!(*Arc::deref(&x, &r), 55);
    assert_eq!(Arc::ref_count(&x, &r), 1);
    let y = Guard::from_arc(&x, &mut r, s);
    assert_eq!(*Arc::deref(&x, &r), *Guard::deref(&y, &r));
    x.retire(&mut r, s);
    // The snapshot keeps the value live past the handle's retirement.
    assert_eq!(*Guard::deref(&y, &r), 55);
    y.release(&mut r);
}

#[test]
fn test_arc_cascading_drop() {
    struct Node {
        next: Option<Arc>,
    }
    let mut r = StandardReclaimer::<Node>::new();
    let s = r.get_or_claim_slot();
    let inner = Arc::new(&mut r, Node { next: None });
    let node0 = Arc::new(&mut r, Node { next: Some(inner) });
    node0.retire(&mut r, s);
    r.cleanup();
    // Play the user drops: each dropped node gives its inner handle back.
    loop {
        let dropped = r.take_graveyard();
        if dropped.is_empty() {
            break;
        }
        for node in dropped {
            if let Some(next) = node.next {
                next.retire(&mut r, s);
            }
        }
        r.cleanup();
    }
}

#[test]
fn test_arc_weak_cycle() {
    struct Node {
        prev: Option<Weak>,
        next: AtomicArc,
    }
    let mut r = StandardReclaimer::<Node>::new();
    let s = r.get_or_claim_slot();
    let c0 = AtomicArc::new(&mut r, None);
    let c0_alias = c0.alias();
    let c1 = AtomicArc::new(&mut r, None);
    let n0 = Arc::new(&mut r, Node { prev: None, next: c0 });
    let w0 = Arc::downgrade(&n0, &mut r);
    let n1 = Arc::new(&mut r, Node { prev: Some(w0), next: c1 });
    c0_alias.store(&mut r, s, Some(&n1));
    let i0 = Arc::as_ptr(&n0);
    let i1 = Arc::as_ptr(&n1);
    n0.retire(&mut r, s);
    n1.retire(&mut r, s);
    r.cleanup();
    // Play the user drops until the cascade quiesces.
    loop {
        let dropped = r.take_graveyard();
        if dropped.is_empty() {
            break;
        }
        for node in dropped {
            if let Some(prev) = node.prev {
                prev.retire(&mut r, s);
            }
            node.next.retire(&mut r, s);
        }
        r.cleanup();
    }
    // The weak back-edge broke the cycle: both values were dropped and both
    // blocks were freed.
    assert!(!r.is_allocated(i0));
    assert!(!r.is_allocated(i1));
}

#[test]
fn test_ptr_eq() {
    let mut r = StandardReclaimer::new();
    let s = r.get_or_claim_slot();
    let x = Arc::new(&mut r, 53);
    let y = Arc::new(&mut r, 53);
    assert!(!Arc::ptr_eq(&x, &y));
    let z = Arc::clone_in(&x, &mut r);
    assert!(Arc::ptr_eq(&x, &z));
    x.retire(&mut r, s);
    y.retire(&mut r, s);
    z.retire(&mut r, s);
    r.cleanup();
}

#[test]
fn test_downgrade_and_counts() {
    let mut r = StandardReclaimer::new();
    let s = r.get_or_claim_slot();
    let x = Arc::new(&mut r, 53);
    assert_eq!(Arc::weak_count(&x, &r), 0);
    let w = Arc::downgrade(&x, &mut r);
    assert_eq!(Arc::weak_count(&x, &r), 1);
    assert_eq!(Arc::strong_count(&x, &r), 1);
    w.retire(&mut r, s);
    r.cleanup();
    assert_eq!(Arc::weak_count(&x, &r), 0);
    x.retire(&mut r, s);
    r.cleanup();
}

#[test]
fn test_into_raw_leaks_count() {
    let mut r = StandardReclaimer::new();
    let s = r.get_or_claim_slot();
    let x = Arc::new(&mut r, 8);
    let y = Arc::clone_in(&x, &mut r);
    let idx = Arc::into_raw(y);
    assert_eq!(idx, Arc::as_ptr(&x));
    // The leaked count keeps the value alive even after the remaining
    // handle is retired.
    x.retire(&mut r, s);
    r.cleanup();
    assert!(r.value_live(idx));
    assert_eq!(r.take_graveyard().len(), 0);
    // Taking the leaked count back and retiring it drops the value.
    let back = Arc::from_raw(&r, idx);
    back.retire(&mut r, s);
    r.cleanup();
    assert_eq!(r.take_graveyard().len(), 1);
}

#[test]
fn test_weak_into_raw() {
    let mut r = StandardReclaimer::new();
    let s = r.get_or_claim_slot();
    let x = Arc::new(&mut r, 9);
    let w = Arc::downgrade(&x, &mut r);
    let idx = Weak::into_raw(w);
    assert_eq!(idx, Arc::as_ptr(&x));
    // The leaked weak count keeps the memory allocated after the value
    // drops.
    x.retire(&mut r, s);
    r.cleanup();
    assert_eq!(r.take_graveyard().len(), 1);
    assert!(r.is_allocated(idx));
    // Taking the leaked weak count back and retiring it frees the block.
    let back = Weak::from_raw(&r, idx);
    back.retire(&mut r, s);
    r.cleanup();
    assert!(!r.is_allocated(idx));
}

#[test]
fn test_guard_to_arc() {
    let mut r = StandardReclaimer::new();
    let s = r.get_or_claim_slot();
    let cell = AtomicArc::new(&mut r, Some(21));
    let g = cell.load(&mut r, s).unwrap();
    let a = Guard::to_arc(&g, &mut r);
    g.release(&mut r);
    assert_eq!(*Arc::deref(&a, &r), 21);
    assert_eq!(Arc::strong_count(&a, &r), 2);
    a.retire(&mut r, s);
    r.cleanup();
}

#[test]
fn test_sequential_stack() {
    // A counted stack over a strong cell: push then pop every value and
    // check that each comes back exactly once, leaving the cell empty.
    struct StackNode {
        val: usize,
        next: Option<Arc>,
    }
    let mut r = StandardReclaimer::<StackNode>::new();
    let s = r.get_or_claim_slot();
    let top = AtomicArc::new(&mut r, None);
    for v in 0..10 {
        let prev = top.swap(&mut r, None);
        let node = Arc::new(&mut r, StackNode { val: v, next: prev });
        let displaced = top.swap(&mut r, Some(&node));
        assert!(displaced.is_none());
        node.retire(&mut r, s);
    }
    let mut popped: Vec<usize> = Vec::new();
    loop {
        match top.swap(&mut r, None) {
            None => break,
            Some(node) => {
                popped.push(Arc::deref(&node, &r).val);
                node.retire(&mut r, s);
                r.cleanup();
                for dropped in r.take_graveyard() {
                    if let Some(next) = dropped.next {
                        let displaced = top.swap(&mut r, Some(&next));
                        assert!(displaced.is_none());
                        next.retire(&mut r, s);
                    }
                }
            },
        }
    }
    assert_eq!(popped, vec![9, 8, 7, 6, 5, 4, 3, 2, 1, 0]);
    assert!(top.load(&mut r, s).is_none());
}

struct ListNode {
    val: usize,
    next: AtomicArc,
}

fn insert_sorted(r: &mut StandardReclaimer<ListNode>, s: usize, head: &AtomicArc, v: usize) {
    let mut prev = head.alias();
    loop {
        match prev.load(r, s) {
            None => {
                let tail = AtomicArc::new(r, None);
                let n = Arc::new(r, ListNode { val: v, next: tail });
                prev.store(r, s, Some(&n));
                n.retire(r, s);
                return;
            },
            Some(g) => {
                if Guard::deref(&g, r).val >= v {
                    let c = prev.clone_in(r);
                    let n = Arc::new(r, ListNode { val: v, next: c });
                    prev.store(r, s, Some(&n));
                    n.retire(r, s);
                    g.release(r);
                    return;
                }
                let next = Guard::deref(&g, r).next.alias();
                g.release(r);
                prev = next;
            },
        }
    }
}

#[test]
fn test_sorted_insertion_sequential() {
    // Sorted insertions into a linked list rooted at a strong cell:
    // traversal yields every inserted value in non-decreasing order.
    let mut r = StandardReclaimer::<ListNode>::new();
    let s = r.get_or_claim_slot();
    let head = AtomicArc::new(&mut r, None);
    let values = [5usize, 2, 8, 1, 9, 3, 7, 0, 6, 4];
    for v in values {
        insert_sorted(&mut r, s, &head, v);
    }
    let mut seen: Vec<usize> = Vec::new();
    let mut cur = head.alias();
    loop {
        match cur.load(&mut r, s) {
            None => break,
            Some(g) => {
                seen.push(Guard::deref(&g, &r).val);
                let next = Guard::deref(&g, &r).next.alias();
                g.release(&mut r);
                cur = next;
            },
        }
    }
    assert_eq!(seen, vec![0, 1, 2, 3, 4, 5, 6, 7, 8, 9]);
}

#[test]
fn test_weak_prev_reverse_traversal() {
    // A list with best-effort weak back-edges: walk forward to the end,
    // then walk back by upgrading each node's weak predecessor. Upgrades
    // of live nodes succeed and never yield a dropped value.
    struct DNode {
        val: usize,
        prev: Option<usize>,
        next: AtomicArc,
    }
    let mut r = StandardReclaimer::<DNode>::new();
    let s = r.get_or_claim_slot();
    let head = AtomicArc::new(&mut r, None);
    let mut weaks: Vec<Weak> = Vec::new();
    let mut cursor = head.alias();
    for v in 0..5 {
        let next_cell = AtomicArc::new(&mut r, None);
        let next_alias = next_cell.alias();
        let prev = if v == 0 { None } else { Some(v - 1) };
        let n = Arc::new(&mut r, DNode { val: v, prev, next: next_cell });
        weaks.push(Arc::downgrade(&n, &mut r));
        cursor.store(&mut r, s, Some(&n));
        n.retire(&mut r, s);
        cursor = next_alias;
    }
    // Forward traversal to a strong handle on the last node.
    let mut last: Option<Arc> = None;
    let mut cur = head.alias();
    loop {
        match cur.load(&mut r, s) {
            None => break,
            Some(g) => {
                let next = Guard::deref(&g, &r).next.alias();
                if let Some(prev_arc) = last.take() {
                    prev_arc.retire(&mut r, s);
                }
                last = Some(Guard::to_arc(&g, &mut r));
                g.release(&mut r);
                cur = next;
            },
        }
    }
    // Backward traversal via upgrades of the weak back-edges.
    let mut seen: Vec<usize> = Vec::new();
    let mut cursor_arc = last.unwrap();
    loop {
        seen.push(Arc::deref(&cursor_arc, &r).val);
        let prev = Arc::deref(&cursor_arc, &r).prev;
        cursor_arc.retire(&mut r, s);
        match prev {
            Some(i) => {
                let upgraded = weaks[i].upgrade(&mut r).unwrap();
                cursor_arc = upgraded;
            },
            None => break,
        }
    }
    assert_eq!(seen, vec![4, 3, 2, 1, 0]);
    for w in weaks {
        w.retire(&mut r, s);
    }
    r.cleanup();
}
