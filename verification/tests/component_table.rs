use entity_table::{ComponentTable, Entity, EntityAllocator};
use std::collections::HashSet;

#[test]
fn component_table_insert_remove() {
    let mut a = EntityAllocator::default();
    let e0 = a.allocate();
    let e1 = a.allocate();
    let e2 = a.allocate();
    let mut c = ComponentTable::default();
    c.insert(e0, "zero".to_string());
    c.insert(e1, "one".to_string());
    c.insert(e2, "two".to_string());
    assert_eq!(c.get(e0).unwrap(), "zero");
    assert_eq!(c.get(e1).unwrap(), "one");
    assert_eq!(c.get(e2).unwrap(), "two");
    c.remove(e0);
    assert_eq!(c.get(e0), None);
    assert_eq!(c.get(e1).unwrap(), "one");
    assert_eq!(c.get(e2).unwrap(), "two");
    c.insert(e0, "zero again".to_string());
    assert_eq!(c.get(e0).unwrap(), "zero again");
    assert_eq!(c.get(e1).unwrap(), "one");
    assert_eq!(c.get(e2).unwrap(), "two");
    c.insert(e1, "one again".to_string());
    *c.get_mut(e2).unwrap() = "two again".to_string();
    assert_eq!(c.get(e0).unwrap(), "zero again");
    assert_eq!(c.get(e1).unwrap(), "one again");
    assert_eq!(c.get(e2).unwrap(), "two again");
    a.free(e0);
    let raw_entries = c
        .entries()
        .as_slice()
        .iter()
        .map(|e| e.data.clone())
        .collect::<Vec<_>>();
    assert_eq!(raw_entries, ["two again", "one again", "zero again"]);
    assert_eq!(c.entity_index_to_entry_index(), [Some(2), Some(1), Some(0)]);
    let e3 = a.allocate();
    assert_eq!(e3.index, 0);
    assert_eq!(c.get(e3), None);
    c.insert(e3, "three".to_string());
    assert_eq!(c.get(e3).unwrap(), "three");
    let raw_entries = c
        .entries()
        .as_slice()
        .iter()
        .map(|e| e.data.clone())
        .collect::<Vec<_>>();
    assert_eq!(raw_entries, ["two again", "one again", "three"]);
    assert_eq!(c.entity_index_to_entry_index(), [Some(2), Some(1), Some(0)]);
}

fn entities_of(c: &ComponentTable<()>) -> Vec<Entity> {
    let mut out = Vec::new();
    let mut walk = c.entities();
    while let Some(e) = walk.next() {
        out.push(e);
    }
    out
}

fn iterated_entities(c: &ComponentTable<()>) -> Vec<Entity> {
    let mut out = Vec::new();
    let mut walk = c.iter();
    while let Some((e, _)) = walk.next() {
        out.push(e);
    }
    out
}

fn compare_entity_walks(c: &ComponentTable<()>) {
    let via_entities = entities_of(c).into_iter().collect::<HashSet<_>>();
    let via_iter = iterated_entities(c).into_iter().collect::<HashSet<_>>();
    assert_eq!(via_entities, via_iter);
    assert_eq!(via_entities.len(), c.len());
}

#[test]
fn entity_walks_agree() {
    let mut a = EntityAllocator::default();
    let mut c: ComponentTable<()> = ComponentTable::default();
    compare_entity_walks(&c);
    let e0 = a.allocate();
    let e1 = a.allocate();
    let e2 = a.allocate();
    let e3 = a.allocate();
    let e4 = a.allocate();
    c.insert(e0, ());
    c.insert(e1, ());
    c.insert(e2, ());
    c.insert(e3, ());
    c.insert(e4, ());
    compare_entity_walks(&c);
    c.remove(e2);
    compare_entity_walks(&c);
    c.insert(e2, ());
    compare_entity_walks(&c);
    a.free(e3);
    let e5 = a.allocate();
    c.insert(e5, ());
    compare_entity_walks(&c);
    assert_eq!(entities_of(&c), vec![e0, e1, e2, e5, e4]);
    assert_eq!(iterated_entities(&c), vec![e0, e1, e4, e5, e2]);
}

#[test]
fn insert_returns_previous_component() {
    let mut a = EntityAllocator::default();
    let e0 = a.allocate();
    let mut c = ComponentTable::default();
    assert_eq!(c.insert(e0, 1u32), None);
    assert_eq!(c.insert(e0, 2u32), Some(1));
    assert_eq!(c.get(e0), Some(&2));
    assert_eq!(c.len(), 1);
}

#[test]
fn stale_entity_component_is_overwritten() {
    let mut a = EntityAllocator::default();
    let e0 = a.allocate();
    let mut c = ComponentTable::default();
    c.insert(e0, 7u32);
    a.free(e0);
    let e1 = a.allocate();
    assert_eq!(e1.index, e0.index);
    assert!(!c.contains(e1));
    assert_eq!(c.insert(e1, 8u32), None);
    assert!(c.contains(e1));
    assert!(!c.contains(e0));
    assert_eq!(c.get(e0), None);
    assert_eq!(c.len(), 1);
}

#[test]
fn remove_takes_the_slot_component() {
    let mut a = EntityAllocator::default();
    let e0 = a.allocate();
    let e1 = a.allocate();
    let mut c = ComponentTable::default();
    c.insert(e0, 10u32);
    c.insert(e1, 11u32);
    assert_eq!(c.remove(e0), Some(10));
    assert_eq!(c.remove(e0), None);
    assert_eq!(c.len(), 1);
    assert_eq!(c.entity_index_to_entry_index(), [None, Some(0)]);
    // a stale handle removes whatever its slot holds
    a.free(e1);
    let e2 = a.allocate();
    assert_eq!(e2.index, e1.index);
    assert_eq!(c.remove(e2), Some(11));
    assert!(c.is_empty());
}

#[test]
fn remove_of_unknown_slot_is_none() {
    let mut c: ComponentTable<u8> = ComponentTable::default();
    assert_eq!(c.remove(Entity { id: 0, index: 5 }), None);
    assert!(c.is_empty());
    assert_eq!(c.len(), 0);
}

#[test]
fn insert_far_slot_pads_the_slot_table() {
    let mut c = ComponentTable::default();
    c.insert(Entity { id: 9, index: 3 }, 'x');
    assert_eq!(c.entity_index_to_entry_index(), [None, None, None, Some(0)]);
    assert_eq!(c.get(Entity { id: 9, index: 3 }), Some(&'x'));
    assert_eq!(c.get(Entity { id: 8, index: 3 }), None);
    assert_eq!(c.get(Entity { id: 9, index: 7 }), None);
}

#[test]
fn iter_mut_updates_components() {
    let mut a = EntityAllocator::default();
    let e0 = a.allocate();
    let e1 = a.allocate();
    let mut c = ComponentTable::default();
    c.insert(e0, 1u32);
    c.insert(e1, 2u32);
    {
        let mut walk = c.iter_mut();
        while let Some((_, d)) = walk.next() {
            *d *= 10;
        }
    }
    assert_eq!(c.get(e0), Some(&10));
    assert_eq!(c.get(e1), Some(&20));
}

#[test]
fn clear_empties_the_table() {
    let mut a = EntityAllocator::default();
    let e0 = a.allocate();
    let mut c = ComponentTable::default();
    c.insert(e0, "a");
    c.clear();
    assert!(c.is_empty());
    assert_eq!(c.get(e0), None);
    assert_eq!(c.entity_index_to_entry_index().len(), 0);
    assert!(entities_of_str(&c).is_empty());
}

fn entities_of_str(c: &ComponentTable<&str>) -> Vec<Entity> {
    let mut out = Vec::new();
    let mut walk = c.entities();
    while let Some(e) = walk.next() {
        out.push(e);
    }
    out
}

#[test]
fn rebuilding_from_entries_keeps_components() {
    let mut a = EntityAllocator::default();
    let e0 = a.allocate();
    let e1 = a.allocate();
    let e2 = a.allocate();
    let mut c = ComponentTable::default();
    c.insert(e2, "c");
    c.insert(e0, "a");
    c.insert(e1, "b");
    c.remove(e2);
    let rebuilt = c.entries().clone().into_component_table();
    assert_eq!(rebuilt.get(e0), Some(&"a"));
    assert_eq!(rebuilt.get(e1), Some(&"b"));
    assert_eq!(rebuilt.get(e2), None);
    assert_eq!(rebuilt.len(), 2);
    assert_eq!(rebuilt.entity_index_to_entry_index(), [Some(1), Some(0)]);
}

fn walk_strs(c: &ComponentTable<String>) -> Vec<Entity> {
    let mut out = Vec::new();
    let mut walk = c.entities();
    while let Some(e) = walk.next() {
        out.push(e);
    }
    out
}

#[test]
fn rebuilt_table_walks_the_same_entities() {
    let mut a = EntityAllocator::default();
    let e0 = a.allocate();
    let e1 = a.allocate();
    let e2 = a.allocate();
    let e3 = a.allocate();
    let mut c = ComponentTable::default();
    c.insert(e3, "d".to_string());
    c.insert(e1, "b".to_string());
    c.insert(e0, "a".to_string());
    c.insert(e2, "c".to_string());
    c.remove(e3);
    c.remove(e1);
    let u = c.entries().clone().into_component_table();
    assert_eq!(u.len(), c.len());
    assert_eq!(walk_strs(&u), walk_strs(&c));
    assert_eq!(walk_strs(&u), vec![e0, e2]);
    for e in [e0, e1, e2, e3] {
        assert_eq!(u.get(e), c.get(e));
        assert_eq!(u.contains(e), c.contains(e));
    }
}

#[test]
fn insert_into_empty_slot_then_remove_restores() {
    let mut a = EntityAllocator::default();
    let e0 = a.allocate();
    let e1 = a.allocate();
    let mut c = ComponentTable::default();
    c.insert(e0, 5u8);
    let before_len = c.len();
    c.insert(e1, 6u8);
    assert_eq!(c.len(), before_len + 1);
    assert_eq!(c.remove(e1), Some(6));
    assert_eq!(c.len(), before_len);
    assert_eq!(c.get(e0), Some(&5));
    assert_eq!(c.get(e1), None);
}
