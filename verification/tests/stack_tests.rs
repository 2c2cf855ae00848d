use hazard_stack::Hazard;
use hazard_stack::Slot;
use hazard_stack::StackHandle;

#[test]
fn lifo_three_values() {
    let (mut stack, mut h) = StackHandle::new::<u64>();
    h.push(&mut stack, 1);
    h.push(&mut stack, 2);
    h.push(&mut stack, 3);
    assert_eq!(h.pop(&mut stack), Some(3));
    assert_eq!(h.pop(&mut stack), Some(2));
    assert_eq!(h.pop(&mut stack), Some(1));
    assert_eq!(h.pop(&mut stack), None);
}

#[test]
fn duplicate_shares_stack() {
    let (mut stack, mut a) = StackHandle::new::<u64>();
    a.push(&mut stack, 10);
    let mut b = a.duplicate(&mut stack);
    assert_eq!(b.pop(&mut stack), Some(10));
    assert_eq!(a.pop(&mut stack), None);
    b.release(&mut stack);
    a.release(&mut stack);
}

#[test]
fn interleaved_pushes_drain_exactly_once() {
    let (mut stack, mut a) = StackHandle::new::<u64>();
    let mut b = a.duplicate(&mut stack);
    for i in 0..1000u64 {
        a.push(&mut stack, i);
        b.push(&mut stack, 1000 + i);
    }
    let mut seen = Vec::new();
    while let Some(v) = a.pop(&mut stack) {
        seen.push(v);
    }
    assert_eq!(seen.len(), 2000);
    seen.sort();
    for (i, v) in seen.iter().enumerate() {
        assert_eq!(*v, i as u64);
    }
    b.release(&mut stack);
    a.release(&mut stack);
}

#[test]
fn gc_after_many_cycles_reclaims_all_retired() {
    let (mut stack, mut h) = StackHandle::new::<u64>();
    h.push(&mut stack, 7);
    h.push(&mut stack, 8);
    h.push(&mut stack, 9);
    for i in 0..10_000u64 {
        h.push(&mut stack, i);
        assert_eq!(h.pop(&mut stack), Some(i));
    }
    h.gc(&mut stack);
    // every retired slot was reclaimed: only the three reachable nodes
    // still occupy storage
    let full = stack
        .slots
        .iter()
        .filter(|s| matches!(s, Slot::Full(_)))
        .count();
    let retired = stack
        .slots
        .iter()
        .filter(|s| matches!(s, Slot::Retired))
        .count();
    assert_eq!(full, 3);
    assert_eq!(retired, 0);
    // the reachable nodes were left untouched
    assert_eq!(h.pop(&mut stack), Some(9));
    assert_eq!(h.pop(&mut stack), Some(8));
    assert_eq!(h.pop(&mut stack), Some(7));
    assert_eq!(h.pop(&mut stack), None);
}

#[test]
fn registry_recycles_dead_records() {
    let (mut stack, a) = StackHandle::new::<u64>();
    let b = a.duplicate(&mut stack);
    assert_eq!(stack.registry.len(), 2);
    b.release(&mut stack);
    // the dead record is recycled rather than the registry growing
    let c = a.duplicate(&mut stack);
    assert_eq!(stack.registry.len(), 2);
    c.release(&mut stack);
    a.release(&mut stack);
}

#[test]
fn release_leaves_other_handle_usable() {
    let (mut stack, mut a) = StackHandle::new::<u64>();
    let mut b = a.duplicate(&mut stack);
    a.push(&mut stack, 5);
    a.pop(&mut stack);
    a.push(&mut stack, 6);
    a.release(&mut stack);
    b.push(&mut stack, 11);
    assert_eq!(b.pop(&mut stack), Some(11));
    assert_eq!(b.pop(&mut stack), Some(6));
    assert_eq!(b.pop(&mut stack), None);
}

#[test]
fn last_release_tears_down() {
    let (mut stack, mut h) = StackHandle::new::<u64>();
    h.push(&mut stack, 1);
    h.pop(&mut stack);
    h.push(&mut stack, 2);
    h.release(&mut stack);
    assert_eq!(stack.slots.len(), 0);
    assert_eq!(stack.registry.len(), 0);
    assert!(stack.head.is_none());
}

#[test]
fn pop_empty_is_none() {
    let (mut stack, mut h) = StackHandle::new::<u64>();
    assert_eq!(h.pop(&mut stack), None);
    h.release(&mut stack);
}

#[test]
fn fresh_hazard_record_is_alive_and_clear() {
    let h = Hazard::new();
    assert!(h.alive);
    assert!(h.published.is_none());
}

#[test]
fn conservation_of_full_slots() {
    let (mut stack, mut h) = StackHandle::new::<u64>();
    for i in 0..5u64 {
        h.push(&mut stack, i);
    }
    h.pop(&mut stack);
    h.pop(&mut stack);
    // 5 pushes, 2 pops: exactly 3 nodes remain reachable
    let full = stack
        .slots
        .iter()
        .filter(|s| matches!(s, Slot::Full(_)))
        .count();
    assert_eq!(full, 3);
}
