use vstd::prelude::*;
use crate::component_table::ComponentTableEntry;
use crate::entity::{max_slots, Entity};
use crate::index_to_id::slot_at;

verus! {

/// No two entries belong to entities with the same slot index.
pub open spec fn distinct_indices<T>(entries: Seq<ComponentTableEntry<T>>) -> bool {
    forall|a: int, b: int|
        0 <= a < entries.len() && 0 <= b < entries.len() && a != b ==> #[trigger] entries[a].entity.index
            != #[trigger] entries[b].entity.index
}

/// The entry position that slot `index` points to, if any.
pub open spec fn occupant(positions: Seq<Option<u32>>, index: int) -> Option<int> {
    match slot_at(positions, index) {
        Some(k) => Some(k as int),
        None => None,
    }
}

/// The position of the entry that holds `entity`'s component, if any: the one that its
/// slot points to, provided it was stored for the same id.
pub open spec fn lookup<T>(
    entries: Seq<ComponentTableEntry<T>>,
    positions: Seq<Option<u32>>,
    entity: Entity,
) -> Option<int> {
    match occupant(positions, entity.index as int) {
        Some(k) => if entries[k].entity.id == entity.id {
            Some(k)
        } else {
            None
        },
        None => None,
    }
}

/// What a table holds, as a map from entity to component.
pub open spec fn table_map<T>(
    entries: Seq<ComponentTableEntry<T>>,
    positions: Seq<Option<u32>>,
) -> Map<Entity, T> {
    Map::new(
        |e: Entity| lookup(entries, positions, e) is Some,
        |e: Entity| entries[lookup(entries, positions, e)->0].data,
    )
}

/// `m` without the entities that occupy slot `index`.
pub open spec fn without_index<T>(m: Map<Entity, T>, index: u32) -> Map<Entity, T> {
    Map::new(|e: Entity| m.dom().contains(e) && e.index != index, |e: Entity| m[e])
}

/// The layout invariant of a component table: the slot table points each occupied slot at the
/// entry of the entity in that slot and back, and the id table names that entity's id.
pub open spec fn table_inv<T>(
    entries: Seq<ComponentTableEntry<T>>,
    positions: Seq<Option<u32>>,
    ids: Seq<Option<u32>>,
) -> bool {
    &&& positions.len() <= max_slots()
    &&& positions.len() <= usize::MAX
    &&& ids.len() == positions.len()
    &&& entries.len() <= positions.len()
    &&& forall|k: int|
        0 <= k < entries.len() ==> {
            let i = (#[trigger] entries[k]).entity.index as int;
            &&& i < positions.len()
            &&& positions[i] == Some(k as u32)
        }
    &&& forall|i: int|
        0 <= i < positions.len() && (#[trigger] positions[i]) is Some ==> {
            let k = positions[i]->0 as int;
            &&& k < entries.len()
            &&& entries[k].entity.index == i
        }
    &&& forall|i: int|
        0 <= i < positions.len() ==> #[trigger] ids[i] == match positions[i] {
            Some(k) => Some(entries[k as int].entity.id),
            None => None,
        }
}

/// The largest slot index among `entries`, or `-1` when there are none.
pub open spec fn max_entry_index<T>(entries: Seq<ComponentTableEntry<T>>) -> int
    decreases entries.len(),
{
    if entries.len() == 0 {
        -1
    } else {
        let m = max_entry_index(entries.drop_last());
        let i = entries.last().entity.index as int;
        if i > m {
            i
        } else {
            m
        }
    }
}

/// Entries with distinct slot indices, all drawn from a finite set, are no more numerous
/// than that set.
pub(crate) proof fn lemma_entries_within<T>(entries: Seq<ComponentTableEntry<T>>, allowed: Set<int>)
    requires
        distinct_indices(entries),
        allowed.finite(),
        forall|k: int| 0 <= k < entries.len() ==> allowed.contains(#[trigger] entries[k].entity.index as int),
    ensures
        entries.len() <= allowed.len(),
{
    let f = |e: ComponentTableEntry<T>| e.entity.index as int;
    let s = entries.map_values(f);
    assert forall|a: int, b: int| 0 <= a < s.len() && 0 <= b < s.len() && a != b implies s[a] != s[b] by {
        assert(entries[a].entity.index != entries[b].entity.index);
    }
    s.unique_seq_to_set();
    assert forall|x: int| s.to_set().contains(x) implies allowed.contains(x) by {
        let k = choose|k: int| 0 <= k < s.len() && s[k] == x;
        assert(allowed.contains(entries[k].entity.index as int));
    }
    vstd::set_lib::lemma_len_subset(s.to_set(), allowed);
}

/// Entries with distinct slot indices below `bound` number at most `bound`.
pub(crate) proof fn lemma_entries_below<T>(entries: Seq<ComponentTableEntry<T>>, bound: int)
    requires
        distinct_indices(entries),
        0 <= bound,
        forall|k: int| 0 <= k < entries.len() ==> (#[trigger] entries[k]).entity.index < bound,
    ensures
        entries.len() <= bound,
{
    let allowed = vstd::set_lib::set_int_range(0, bound);
    vstd::set_lib::lemma_int_range(0, bound);
    assert forall|k: int| 0 <= k < entries.len() implies allowed.contains(
        #[trigger] entries[k].entity.index as int,
    ) by {
        assert(entries[k].entity.index < bound);
    }
    lemma_entries_within(entries, allowed);
}

/// The entries of a laid-out table belong to distinct slots.
pub(crate) proof fn lemma_inv_distinct<T>(
    entries: Seq<ComponentTableEntry<T>>,
    positions: Seq<Option<u32>>,
    ids: Seq<Option<u32>>,
)
    requires
        table_inv(entries, positions, ids),
    ensures
        distinct_indices(entries),
        forall|k: int| 0 <= k < entries.len() ==> (#[trigger] entries[k]).entity.index < usize::MAX,
{
    assert forall|a: int, b: int|
        0 <= a < entries.len() && 0 <= b < entries.len() && a != b implies #[trigger] entries[a].entity.index
        != #[trigger] entries[b].entity.index by {
        assert(positions[entries[a].entity.index as int] == Some(a as u32));
        assert(positions[entries[b].entity.index as int] == Some(b as u32));
    }
}

/// Entries of a table whose slot `hole` is empty number fewer than its slots.
pub(crate) proof fn lemma_entries_fewer_than_slots<T>(
    entries: Seq<ComponentTableEntry<T>>,
    positions: Seq<Option<u32>>,
    ids: Seq<Option<u32>>,
    hole: int,
)
    requires
        table_inv(entries, positions, ids),
        0 <= hole < positions.len(),
        positions[hole] is None,
    ensures
        entries.len() < positions.len(),
{
    lemma_inv_distinct(entries, positions, ids);
    let allowed = vstd::set_lib::set_int_range(0, positions.len() as int).remove(hole);
    vstd::set_lib::lemma_int_range(0, positions.len() as int);
    assert forall|k: int| 0 <= k < entries.len() implies allowed.contains(
        #[trigger] entries[k].entity.index as int,
    ) by {
        assert(positions[entries[k].entity.index as int] == Some(k as u32));
    }
    lemma_entries_within(entries, allowed);
}

/// The largest slot index bounds every slot index and is one of them.
pub(crate) proof fn lemma_max_entry_index<T>(entries: Seq<ComponentTableEntry<T>>)
    ensures
        forall|k: int|
            0 <= k < entries.len() ==> (#[trigger] entries[k]).entity.index <= max_entry_index(entries),
        entries.len() > 0 ==> exists|k: int|
            0 <= k < entries.len() && (#[trigger] entries[k]).entity.index == max_entry_index(entries),
        entries.len() == 0 ==> max_entry_index(entries) == -1,
    decreases entries.len(),
{
    if entries.len() > 0 {
        let init = entries.drop_last();
        lemma_max_entry_index(init);
        assert forall|k: int| 0 <= k < entries.len() implies (#[trigger] entries[k]).entity.index
            <= max_entry_index(entries) by {
            if k < init.len() {
                assert(entries[k] == init[k]);
            }
        }
        if entries.last().entity.index as int > max_entry_index(init) {
            assert(entries[entries.len() - 1].entity.index == max_entry_index(entries));
        } else {
            let k = choose|k: int| 0 <= k < init.len() && (#[trigger] init[k]).entity.index == max_entry_index(init);
            assert(entries[k] == init[k]);
        }
    }
}

/// In a laid-out table every entry's entity has that entry's component, and every entity
/// with a component owns an entry.
pub(crate) proof fn lemma_inv_map<T>(
    entries: Seq<ComponentTableEntry<T>>,
    positions: Seq<Option<u32>>,
    ids: Seq<Option<u32>>,
)
    requires
        table_inv(entries, positions, ids),
    ensures
        forall|k: int|
            0 <= k < entries.len() ==> lookup(entries, positions, #[trigger] entries[k].entity) == Some(k),
        forall|k: int|
            0 <= k < entries.len() ==> table_map(entries, positions).dom().contains(
                #[trigger] entries[k].entity,
            ) && table_map(entries, positions)[entries[k].entity] == entries[k].data,
        forall|e: Entity|
            #[trigger] table_map(entries, positions).dom().contains(e) ==> {
                let k = lookup(entries, positions, e)->0;
                &&& 0 <= k < entries.len()
                &&& entries[k].entity == e
            },
{
    assert forall|k: int| 0 <= k < entries.len() implies lookup(
        entries,
        positions,
        #[trigger] entries[k].entity,
    ) == Some(k) by {
        assert(positions[entries[k].entity.index as int] == Some(k as u32));
    }
    assert forall|e: Entity| #[trigger] table_map(entries, positions).dom().contains(e) implies {
        let k = lookup(entries, positions, e)->0;
        &&& 0 <= k < entries.len()
        &&& entries[k].entity == e
    } by {
        assert(positions[e.index as int] is Some);
    }
}

} // verus!
