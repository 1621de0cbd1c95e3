use entity_table::{Entity, EntityAllocator};

#[test]
fn entity_alloc_remove() {
    let mut a = EntityAllocator::default();
    let e0 = a.allocate();
    let e1 = a.allocate();
    let e2 = a.allocate();
    a.free(e1);
    a.free(e1); // second free should be redundant
    let e3 = a.allocate();
    let e4 = a.allocate();
    assert_eq!([e0.id, e1.id, e2.id, e3.id, e4.id], [0, 1, 2, 3, 4]);
    assert_eq!(
        [e0.index, e1.index, e2.index, e3.index, e4.index],
        [0, 1, 2, 1, 3]
    );
}

#[test]
fn allocated_entities_exist_until_freed() {
    let mut a = EntityAllocator::default();
    let e0 = a.allocate();
    let e1 = a.allocate();
    assert!(a.entity_exists(e0));
    assert!(a.entity_exists(e1));
    a.free(e0);
    assert!(!a.entity_exists(e0));
    assert!(a.entity_exists(e1));
    let e2 = a.allocate();
    assert_eq!(e2, Entity { id: 2, index: 0 });
    assert!(a.entity_exists(e2));
    // the stale handle shares the slot but not the id
    assert!(!a.entity_exists(e0));
}

#[test]
fn freed_indices_are_reused_most_recent_first() {
    let mut a = EntityAllocator::default();
    let e0 = a.allocate();
    let e1 = a.allocate();
    let e2 = a.allocate();
    a.free(e0);
    a.free(e2);
    a.free(e1);
    let f0 = a.allocate();
    let f1 = a.allocate();
    let f2 = a.allocate();
    let f3 = a.allocate();
    assert_eq!([f0.index, f1.index, f2.index, f3.index], [1, 2, 0, 3]);
    assert_eq!([f0.id, f1.id, f2.id, f3.id], [3, 4, 5, 6]);
}

#[test]
fn freeing_a_stale_entity_does_nothing() {
    let mut a = EntityAllocator::default();
    let e0 = a.allocate();
    a.free(e0);
    let e1 = a.allocate();
    assert_eq!(e1.index, e0.index);
    a.free(e0);
    assert!(a.entity_exists(e1));
    let e2 = a.allocate();
    assert_eq!(e2, Entity { id: 2, index: 1 });
}

#[test]
fn clear_starts_over() {
    let mut a = EntityAllocator::default();
    let _ = a.allocate();
    let e1 = a.allocate();
    a.free(e1);
    a.clear();
    let e = a.allocate();
    assert_eq!(e, Entity { id: 0, index: 0 });
    let f = a.allocate();
    assert_eq!(f, Entity { id: 1, index: 1 });
}

#[test]
fn ids_are_never_handed_out_twice() {
    let mut a = EntityAllocator::default();
    let mut seen = Vec::new();
    for round in 0..4 {
        let e = a.allocate();
        let f = a.allocate();
        seen.push(e.id);
        seen.push(f.id);
        if round % 2 == 0 {
            a.free(e);
        } else {
            a.free(f);
        }
    }
    let mut sorted = seen.clone();
    sorted.dedup();
    assert_eq!(sorted, seen);
    assert_eq!(seen, vec![0, 1, 2, 3, 4, 5, 6, 7]);
}
