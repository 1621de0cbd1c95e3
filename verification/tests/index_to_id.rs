use entity_table::{Entity, IndexToId, IndexToIdSerialize};

fn table(slots: &[Option<u32>]) -> IndexToId {
    let mut t = IndexToId::new_with_capacity(0);
    for (index, slot) in slots.iter().enumerate() {
        if let Some(id) = slot {
            t.insert(Entity { id: *id, index: index as u32 });
        }
    }
    t
}

fn walk(t: &IndexToId) -> Vec<Entity> {
    let mut out = Vec::new();
    let mut w = t.entities();
    while let Some(e) = w.next() {
        out.push(e);
    }
    out
}

#[test]
fn insert_remove_contains() {
    let mut t = IndexToId::new_with_capacity(2);
    assert!(!t.contains(Entity { id: 0, index: 0 }));
    t.insert(Entity { id: 4, index: 5 });
    assert!(t.contains(Entity { id: 4, index: 5 }));
    assert!(!t.contains(Entity { id: 3, index: 5 }));
    t.remove(5);
    assert!(!t.contains(Entity { id: 4, index: 5 }));
    t.remove(100);
    t.insert(Entity { id: 1, index: 1 });
    assert_eq!(walk(&t), vec![Entity { id: 1, index: 1 }]);
    t.clear();
    assert!(walk(&t).is_empty());
}

#[test]
fn to_serialize_splits_leading_run() {
    let t = table(&[Some(0), Some(1), None, Some(7), Some(4)]);
    let s = t.to_serialize();
    assert_eq!(s.num_matching_entities, 2);
    assert_eq!(
        s.entities,
        vec![Entity { id: 7, index: 3 }, Entity { id: 4, index: 4 }]
    );
}

#[test]
fn from_serialize_expands() {
    let t = IndexToId::from_serialize(IndexToIdSerialize {
        entities: vec![Entity { id: 9, index: 4 }, Entity { id: 6, index: 1 }],
        num_matching_entities: 3,
    });
    assert_eq!(
        walk(&t),
        vec![
            Entity { id: 0, index: 0 },
            Entity { id: 6, index: 1 },
            Entity { id: 2, index: 2 },
            Entity { id: 9, index: 4 },
        ]
    );
    let empty = IndexToId::from_serialize(IndexToIdSerialize {
        entities: vec![],
        num_matching_entities: 0,
    });
    assert!(walk(&empty).is_empty());
    let run = IndexToId::from_serialize(IndexToIdSerialize {
        entities: vec![],
        num_matching_entities: 2,
    });
    assert_eq!(
        walk(&run),
        vec![Entity { id: 0, index: 0 }, Entity { id: 1, index: 1 }]
    );
}

#[test]
fn serialize_round_trip() {
    let slots = [Some(0), None, Some(2), Some(5), None, Some(1), None];
    let t = table(&slots);
    let back = IndexToId::from_serialize(t.to_serialize());
    assert_eq!(walk(&back), walk(&t));
    for (index, slot) in slots.iter().enumerate() {
        if let Some(id) = slot {
            assert!(back.contains(Entity { id: *id, index: index as u32 }));
        }
    }
}

#[test]
fn round_trip_drops_only_trailing_empty_slots() {
    let t = table(&[Some(0), Some(3), None, None]);
    let back = IndexToId::from_serialize(t.to_serialize());
    assert_eq!(walk(&back), vec![Entity { id: 0, index: 0 }, Entity { id: 3, index: 1 }]);
    assert!(back.contains(Entity { id: 3, index: 1 }));
    let s = back.to_serialize();
    assert_eq!(s.num_matching_entities, 1);
    assert_eq!(s.entities, vec![Entity { id: 3, index: 1 }]);
}
