use vstd::prelude::*;
use crate::entity::{live_entities, max_slots, Entities, Entity};
use crate::index_to_id::{pad_slots, pad_with_none, IndexToId};
use crate::layout::{
    distinct_indices, lemma_entries_below, lemma_entries_fewer_than_slots, lemma_inv_distinct,
    lemma_inv_map, lemma_max_entry_index, lookup, max_entry_index, occupant, table_inv, table_map,
    without_index,
};
use crate::table_laws::{lemma_id_walk_is_domain, law_len_counts_components};

verus! {

/// One component value together with the entity that owns it.
#[derive(Debug)]
pub struct ComponentTableEntry<T> {
    pub data: T,
    pub entity: Entity,
}

impl<T: Clone> Clone for ComponentTableEntry<T> {
    /// The same entity with a clone of its component.
    fn clone(&self) -> (r: Self)
        ensures
            r.entity == self.entity,
            cloned(self.data, r.data),
    {
        ComponentTableEntry { data: self.data.clone(), entity: self.entity }
    }
}

/// The dense array of a component table's entries, in storage order.
#[derive(Debug)]
pub struct ComponentTableEntries<T> {
    vec: Vec<ComponentTableEntry<T>>,
}

impl<T: Clone> Clone for ComponentTableEntries<T> {
    /// The same entities, in the same order, each with a clone of its component.
    fn clone(&self) -> (r: Self)
        ensures
            self.wf() ==> r.wf(),
            r.spec_entries().len() == self.spec_entries().len(),
            forall|k: int|
                0 <= k < self.spec_entries().len() ==> (#[trigger] r.spec_entries()[k]).entity
                    == self.spec_entries()[k].entity && cloned(
                    self.spec_entries()[k].data,
                    r.spec_entries()[k].data,
                ),
    {
        let mut vec: Vec<ComponentTableEntry<T>> = Vec::with_capacity(self.vec.len());
        let mut k: usize = 0;
        while k < self.vec.len()
            invariant
                k <= self.vec@.len(),
                vec@.len() == k,
                forall|j: int|
                    0 <= j < k ==> (#[trigger] vec@[j]).entity == self.vec@[j].entity && cloned(
                        self.vec@[j].data,
                        vec@[j].data,
                    ),
            decreases self.vec@.len() - k,
        {
            vec.push(self.vec[k].clone());
            k = k + 1;
        }
        ComponentTableEntries { vec }
    }
}

impl<T> ComponentTableEntries<T> {
    /// The entries, in storage order.
    pub closed spec fn spec_entries(&self) -> Seq<ComponentTableEntry<T>> {
        self.vec@
    }

    /// Entries that a table can be built from: one per slot index.
    pub open spec fn wf(&self) -> bool {
        &&& distinct_indices(self.spec_entries())
        &&& forall|k: int|
            0 <= k < self.spec_entries().len() ==> (#[trigger] self.spec_entries()[k]).entity.index
                < usize::MAX
    }

    /// The entries, in storage order.
    pub fn as_slice(&self) -> (r: &[ComponentTableEntry<T>])
        ensures
            r@ == self.spec_entries(),
    {
        self.vec.as_slice()
    }

    /// Drops every entry.
    pub fn clear(&mut self)
        ensures
            final(self).wf(),
            final(self).spec_entries() == Seq::<ComponentTableEntry<T>>::empty(),
    {
        self.vec.clear();
    }

    /// Builds the slot table and the id table that index these entries.
    fn entity_index_tables(&self) -> (r: (Vec<Option<u32>>, IndexToId))
        requires
            self.wf(),
        ensures
            table_inv(self.spec_entries(), r.0@, r.1@),
            r.0@.len() == max_entry_index(self.spec_entries()) + 1,
    {
        let ghost es = self.spec_entries();
        proof {
            lemma_max_entry_index(es);
        }
        let n = self.vec.len();
        if n == 0 {
            let ids = IndexToId::new_with_capacity(0);
            assert(ids@ =~= Seq::<Option<u32>>::empty());
            return (Vec::new(), ids);
        }
        let mut max_index: u32 = self.vec[0].entity.index;
        let mut i: usize = 1;
        assert(es.take(1).drop_last() =~= Seq::<ComponentTableEntry<T>>::empty());
        assert(es.take(1).last() == es[0]);
        assert(max_entry_index(es.take(1).drop_last()) == -1);
        assert(max_entry_index(es.take(1)) == es[0].entity.index as int);
        while i < n
            invariant
                1 <= i <= n,
                n == es.len(),
                es == self.spec_entries(),
                max_index == max_entry_index(es.take(i as int)),
            decreases n - i,
        {
            let x = self.vec[i].entity.index;
            assert(es.take(i + 1).drop_last() =~= es.take(i as int));
            if x > max_index {
                max_index = x;
            }
            i = i + 1;
        }
        assert(es.take(n as int) =~= es);
        let ghost m = max_entry_index(es);
        assert(max_index < usize::MAX) by {
            let k0 = choose|k: int| 0 <= k < es.len() && (#[trigger] es[k]).entity.index == m;
            assert(es[k0].entity.index < usize::MAX);
        }
        let size = max_index as usize + 1;
        proof {
            lemma_entries_below(es, size as int);
        }
        let mut positions: Vec<Option<u32>> = Vec::with_capacity(size);
        pad_with_none(&mut positions, size);
        let mut ids = IndexToId::new_with_capacity(size);
        let mut k: usize = 0;
        while k < n
            invariant
                k <= n,
                n == es.len(),
                es == self.spec_entries(),
                distinct_indices(es),
                n <= size,
                size <= max_slots(),
                size <= usize::MAX,
                forall|j: int| 0 <= j < es.len() ==> (#[trigger] es[j]).entity.index < size,
                positions@.len() == size,
                ids@.len() == size,
                forall|j: int|
                    0 <= j < k ==> positions@[(#[trigger] es[j]).entity.index as int] == Some(j as u32),
                forall|i: int|
                    0 <= i < size && (#[trigger] positions@[i]) is Some ==> {
                        let j = positions@[i]->0 as int;
                        &&& j < k
                        &&& es[j].entity.index == i
                    },
                forall|i: int|
                    0 <= i < size ==> #[trigger] ids@[i] == match positions@[i] {
                        Some(j) => Some(es[j as int].entity.id),
                        None => None,
                    },
            decreases n - k,
        {
            let entity = self.vec[k].entity;
            assert(es[k as int].entity == entity);
            let ghost p0 = positions@;
            positions.set(entity.index as usize, Some(k as u32));
            ids.insert(entity);
            proof {
                assert forall|j: int| 0 <= j < k + 1 implies positions@[(#[trigger] es[j]).entity.index as int]
                    == Some(j as u32) by {
                    if j < k {
                        assert(es[j].entity.index != es[k as int].entity.index);
                    }
                }
                assert forall|i: int| 0 <= i < size && (#[trigger] positions@[i]) is Some implies {
                    let j = positions@[i]->0 as int;
                    &&& j < k + 1
                    &&& es[j].entity.index == i
                } by {
                    if i != entity.index {
                        assert(positions@[i] == p0[i]);
                    }
                }
            }
            k = k + 1;
        }
        (positions, ids)
    }

    /// Builds a component table holding exactly these entries, in this order.
    pub fn into_component_table(self) -> (r: ComponentTable<T>)
        requires
            self.wf(),
        ensures
            r.wf(),
            r.entry_seq() == self.spec_entries(),
            r.position_seq().len() == max_entry_index(self.spec_entries()) + 1,
            forall|k: int|
                0 <= k < self.spec_entries().len() ==> r@.dom().contains(
                    (#[trigger] self.spec_entries()[k]).entity,
                ) && r@[self.spec_entries()[k].entity] == self.spec_entries()[k].data,
            forall|e: Entity|
                #[trigger] r@.dom().contains(e) ==> exists|k: int|
                    0 <= k < self.spec_entries().len() && (#[trigger] self.spec_entries()[k]).entity == e,
    {
        let (entity_index_to_entry_index, entity_index_to_entity_id) = self.entity_index_tables();
        let r = ComponentTable { entries: self, entity_index_to_entry_index, entity_index_to_entity_id };
        proof {
            lemma_inv_map(r.entry_seq(), r.position_seq(), r.id_seq());
            assert forall|e: Entity| #[trigger] r@.dom().contains(e) implies exists|k: int|
                0 <= k < r.entry_seq().len() && (#[trigger] r.entry_seq()[k]).entity == e by {
                let k = lookup(r.entry_seq(), r.position_seq(), e)->0;
                assert(r.entry_seq()[k].entity == e);
            }
        }
        r
    }
}

impl<T> Default for ComponentTableEntries<T> {
    /// No entries.
    fn default() -> (r: ComponentTableEntries<T>)
        ensures
            r.wf(),
            r.spec_entries() == Seq::<ComponentTableEntry<T>>::empty(),
    {
        ComponentTableEntries { vec: Vec::new() }
    }
}

/// Stores at most one component per entity: the components sit densely in an array of
/// entries, and a table indexed by entity slot points at each slot's entry.
#[derive(Clone, Debug)]
pub struct ComponentTable<T> {
    entries: ComponentTableEntries<T>,
    entity_index_to_entry_index: Vec<Option<u32>>,
    entity_index_to_entity_id: IndexToId,
}

impl<T> View for ComponentTable<T> {
    type V = Map<Entity, T>;

    /// The component of each entity that has one.
    open spec fn view(&self) -> Map<Entity, T> {
        table_map(self.entry_seq(), self.position_seq())
    }
}

impl<T> ComponentTable<T> {
    /// The entries, in storage order.
    pub closed spec fn entry_seq(&self) -> Seq<ComponentTableEntry<T>> {
        self.entries.spec_entries()
    }

    /// For each slot index, the position of its entry, if any.
    pub closed spec fn position_seq(&self) -> Seq<Option<u32>> {
        self.entity_index_to_entry_index@
    }

    /// For each slot index, the id of the entity whose entry it holds, if any.
    pub closed spec fn id_seq(&self) -> Seq<Option<u32>> {
        self.entity_index_to_entity_id@
    }

    /// The table's layout invariant.
    pub open spec fn wf(&self) -> bool {
        table_inv(self.entry_seq(), self.position_seq(), self.id_seq())
    }

    /// The entry position that slot `index` points to, if any.
    pub open spec fn occupant_of(&self, index: u32) -> Option<int> {
        occupant(self.position_seq(), index as int)
    }

    /// Drops every component.
    pub fn clear(&mut self)
        ensures
            final(self).wf(),
            final(self).entry_seq() == Seq::<ComponentTableEntry<T>>::empty(),
            final(self).position_seq() == Seq::<Option<u32>>::empty(),
            final(self)@ == Map::<Entity, T>::empty(),
    {
        self.entries.clear();
        self.entity_index_to_entry_index.clear();
        self.entity_index_to_entity_id.clear();
        assert(self@ =~= Map::<Entity, T>::empty());
    }

    /// Whether no entity has a component here.
    pub fn is_empty(&self) -> (r: bool)
        ensures
            r == (self.entry_seq().len() == 0),
            self.wf() ==> r == (self@.dom().len() == 0),
    {
        proof {
            if self.wf() {
                law_len_counts_components(*self);
            }
        }
        self.entries.vec.len() == 0
    }

    /// The number of entities that have a component here.
    pub fn len(&self) -> (r: usize)
        ensures
            r == self.entry_seq().len(),
            self.wf() ==> r == self@.dom().len(),
    {
        proof {
            if self.wf() {
                law_len_counts_components(*self);
            }
        }
        self.entries.vec.len()
    }

    /// The entries, in storage order.
    pub fn entries(&self) -> (r: &ComponentTableEntries<T>)
        ensures
            r.spec_entries() == self.entry_seq(),
            self.wf() ==> r.wf(),
    {
        proof {
            if self.wf() {
                lemma_inv_distinct(self.entry_seq(), self.position_seq(), self.id_seq());
            }
        }
        &self.entries
    }

    /// For each slot index, the position of its entry, if any.
    pub fn entity_index_to_entry_index(&self) -> (r: &[Option<u32>])
        ensures
            r@ == self.position_seq(),
    {
        self.entity_index_to_entry_index.as_slice()
    }

    /// Whether `entity` has a component here.
    pub fn contains(&self, entity: Entity) -> (r: bool)
        requires
            self.wf(),
        ensures
            r == self@.dom().contains(entity),
    {
        let index = entity.index as usize;
        if index < self.entity_index_to_entry_index.len() {
            match self.entity_index_to_entry_index[index] {
                Some(entry_index) => self.entries.vec[entry_index as usize].entity.id == entity.id,
                None => false,
            }
        } else {
            false
        }
    }

    /// The component of `entity`, if it has one.
    pub fn get(&self, entity: Entity) -> (r: Option<&T>)
        requires
            self.wf(),
        ensures
            r == if self@.dom().contains(entity) {
                Some(&self@[entity])
            } else {
                None
            },
    {
        let index = entity.index as usize;
        if index < self.entity_index_to_entry_index.len() {
            match self.entity_index_to_entry_index[index] {
                Some(entry_index) => {
                    let entry = &self.entries.vec[entry_index as usize];
                    if entry.entity.id == entity.id {
                        Some(&entry.data)
                    } else {
                        None
                    }
                },
                None => None,
            }
        } else {
            None
        }
    }

    /// Gives `entity` the component `data`, returning the component it had before, if any.
    /// A component stored for another entity in the same slot is overwritten and lost.
    pub fn insert(&mut self, entity: Entity, data: T) -> (r: Option<T>)
        requires
            old(self).wf(),
            entity.index < usize::MAX,
        ensures
            final(self).wf(),
            r == if old(self)@.dom().contains(entity) {
                Some(old(self)@[entity])
            } else {
                None
            },
            final(self)@ == without_index(old(self)@, entity.index).insert(entity, data),
            match old(self).occupant_of(entity.index) {
                Some(k) => {
                    &&& final(self).entry_seq() == old(self).entry_seq().update(
                        k,
                        (ComponentTableEntry { data, entity }),
                    )
                    &&& final(self).position_seq() == old(self).position_seq()
                },
                None => {
                    &&& final(self).entry_seq() == old(self).entry_seq().push(
                        (ComponentTableEntry { data, entity }),
                    )
                    &&& final(self).position_seq() == pad_slots(
                        old(self).position_seq(),
                        entity.index + 1,
                    ).update(entity.index as int, Some(old(self).entry_seq().len() as u32))
                },
            },
    {
        let ghost es0 = self.entry_seq();
        let ghost ps0 = self.position_seq();
        let ghost ids0 = self.id_seq();
        let index = entity.index as usize;
        let r = if index < self.entity_index_to_entry_index.len() {
            match self.entity_index_to_entry_index[index] {
                Some(entry_index) => {
                    let k = entry_index as usize;
                    let entry = &mut self.entries.vec[k];
                    if entry.entity == entity {
                        let mut previous = data;
                        std::mem::swap(&mut entry.data, &mut previous);
                        Some(previous)
                    } else {
                        entry.entity.id = entity.id;
                        entry.data = data;
                        self.entity_index_to_entity_id.insert(entity);
                        None
                    }
                },
                None => {
                    proof {
                        lemma_entries_fewer_than_slots(es0, ps0, ids0, index as int);
                    }
                    let len = self.entries.vec.len();
                    self.entity_index_to_entry_index.set(index, Some(len as u32));
                    self.entries.vec.push(ComponentTableEntry { data, entity });
                    self.entity_index_to_entity_id.insert(entity);
                    None
                },
            }
        } else {
            pad_with_none(&mut self.entity_index_to_entry_index, index);
            let len = self.entries.vec.len();
            self.entity_index_to_entry_index.push(Some(len as u32));
            assert(self.entity_index_to_entry_index@ =~= pad_slots(ps0, entity.index + 1).update(
                entity.index as int,
                Some(len as u32),
            ));
            self.entries.vec.push(ComponentTableEntry { data, entity });
            self.entity_index_to_entity_id.insert(entity);
            None
        };
        proof {
            assert(self@ =~= without_index(old(self)@, entity.index).insert(entity, data));
        }
        r
    }

    /// Removes the component stored in `entity`'s slot and returns it, whichever entity of
    /// that slot it was stored for. The last entry moves into the freed position.
    pub fn remove(&mut self, entity: Entity) -> (r: Option<T>)
        requires
            old(self).wf(),
        ensures
            final(self).wf(),
            final(self)@ == without_index(old(self)@, entity.index),
            old(self)@.dom().contains(entity) ==> r == Some(old(self)@[entity]),
            match old(self).occupant_of(entity.index) {
                Some(k) => {
                    let es = old(self).entry_seq();
                    let ps = old(self).position_seq().update(entity.index as int, None);
                    let last = es.len() - 1;
                    &&& r == Some(es[k].data)
                    &&& k == last ==> {
                        &&& final(self).entry_seq() == es.drop_last()
                        &&& final(self).position_seq() == ps
                    }
                    &&& k != last ==> {
                        &&& final(self).entry_seq() == es.update(k, es[last]).drop_last()
                        &&& final(self).position_seq() == ps.update(
                            es[last].entity.index as int,
                            Some(k as u32),
                        )
                    }
                },
                None => {
                    &&& r is None
                    &&& final(self).entry_seq() == old(self).entry_seq()
                    &&& final(self).position_seq() == old(self).position_seq()
                },
            },
    {
        let ghost es0 = self.entry_seq();
        let ghost ps0 = self.position_seq();
        let index = entity.index as usize;
        let r = if index < self.entity_index_to_entry_index.len() {
            self.entity_index_to_entity_id.remove(entity.index);
            match self.entity_index_to_entry_index[index] {
                Some(entry_index) => {
                    self.entity_index_to_entry_index.set(index, None);
                    let k = entry_index as usize;
                    if k == self.entries.vec.len() - 1 {
                        match self.entries.vec.pop() {
                            Some(entry) => Some(entry.data),
                            None => None,
                        }
                    } else {
                        let entry = self.entries.vec.swap_remove(k);
                        let moved_index = self.entries.vec[k].entity.index;
                        self.entity_index_to_entry_index.set(moved_index as usize, Some(entry_index));
                        Some(entry.data)
                    }
                },
                None => None,
            }
        } else {
            None
        };
        proof {
            assert(self@ =~= without_index(old(self)@, entity.index));
        }
        r
    }

    /// A mutable reference to the component of `entity`, if it has one.
    pub fn get_mut(&mut self, entity: Entity) -> (r: Option<&mut T>)
        requires
            old(self).wf(),
        ensures
            final(self).wf(),
            old(self)@.dom().contains(entity) ==> {
                let k = lookup(old(self).entry_seq(), old(self).position_seq(), entity)->0;
                &&& r is Some
                &&& *r.unwrap() == old(self)@[entity]
                &&& final(self)@ == old(self)@.insert(entity, *final(r.unwrap()))
                &&& final(self).entry_seq() == old(self).entry_seq().update(
                    k,
                    (ComponentTableEntry { data: *final(r.unwrap()), entity }),
                )
                &&& final(self).position_seq() == old(self).position_seq()
            },
            !old(self)@.dom().contains(entity) ==> r is None && *final(self) == *old(self),
    {
        let index = entity.index as usize;
        if index < self.entity_index_to_entry_index.len() {
            match self.entity_index_to_entry_index[index] {
                Some(entry_index) => {
                    let k = entry_index as usize;
                    if self.entries.vec[k].entity.id == entity.id {
                        Some(&mut self.entries.vec[k].data)
                    } else {
                        None
                    }
                },
                None => None,
            }
        } else {
            None
        }
    }

    /// The entities that have a component here, in slot order.
    pub fn entities(&self) -> (r: Entities<'_>)
        ensures
            r.wf(),
            r@ == live_entities(self.id_seq(), 0),
            self.wf() ==> forall|e: Entity| #[trigger] r@.contains(e) <==> self@.dom().contains(e),
    {
        proof {
            if self.wf() {
                lemma_id_walk_is_domain(*self);
            }
        }
        self.entity_index_to_entity_id.entities()
    }

    /// Walks the entries in storage order.
    pub fn iter(&self) -> (r: ComponentTableIter<'_, T>)
        ensures
            r.wf(),
            r@ == self.entry_seq(),
    {
        ComponentTableIter { entries: &self.entries.vec, pos: 0 }
    }

    /// Walks the entries in storage order, handing out each component mutably.
    pub fn iter_mut(&mut self) -> (r: ComponentTableIterMut<'_, T>)
        ensures
            r.rest@ == old(self).entry_seq(),
            final(self).entry_seq() == final(r.rest)@,
            final(self).position_seq() == old(self).position_seq(),
            final(self).id_seq() == old(self).id_seq(),
    {
        ComponentTableIterMut { rest: self.entries.vec.as_mut_slice() }
    }
}

impl<T> Default for ComponentTable<T> {
    /// A table that holds no component.
    fn default() -> (r: ComponentTable<T>)
        ensures
            r.wf(),
            r.entry_seq() == Seq::<ComponentTableEntry<T>>::empty(),
            r.position_seq() == Seq::<Option<u32>>::empty(),
            r@ == Map::<Entity, T>::empty(),
    {
        let r = ComponentTableEntries::default().into_component_table();
        proof {
            lemma_max_entry_index(r.entry_seq());
            assert(r.position_seq() =~= Seq::<Option<u32>>::empty());
            assert(r@ =~= Map::<Entity, T>::empty());
        }
        r
    }
}

/// Walks a table's entries in storage order, yielding each entity with its component.
pub struct ComponentTableIter<'a, T> {
    entries: &'a Vec<ComponentTableEntry<T>>,
    pos: usize,
}

impl<'a, T> View for ComponentTableIter<'a, T> {
    type V = Seq<ComponentTableEntry<T>>;

    /// The entries that are still to come, in order.
    closed spec fn view(&self) -> Seq<ComponentTableEntry<T>> {
        self.entries@.subrange(self.pos as int, self.entries@.len() as int)
    }
}

impl<'a, T> ComponentTableIter<'a, T> {
    /// The walk's position lies within the entries.
    pub closed spec fn wf(&self) -> bool {
        self.pos <= self.entries@.len()
    }

    /// Yields the next entity and its component, or `None` at the end.
    pub fn next(&mut self) -> (r: Option<(Entity, &'a T)>)
        requires
            old(self).wf(),
        ensures
            final(self).wf(),
            old(self)@.len() == 0 ==> r is None && final(self)@ == old(self)@,
            old(self)@.len() > 0 ==> r == Some((old(self)@[0].entity, &old(self)@[0].data))
                && final(self)@ == old(self)@.drop_first(),
    {
        if self.pos < self.entries.len() {
            let entry: &'a ComponentTableEntry<T> = &self.entries[self.pos];
            self.pos = self.pos + 1;
            assert(self@ =~= old(self)@.drop_first());
            Some((entry.entity, &entry.data))
        } else {
            None
        }
    }
}

/// Walks a table's entries in storage order, yielding each entity with a mutable reference
/// to its component.
pub struct ComponentTableIterMut<'a, T> {
    /// The entries still to be walked.
    pub rest: &'a mut [ComponentTableEntry<T>],
}

impl<'a, T> ComponentTableIterMut<'a, T> {
    /// Yields the next entity and its component, or `None` at the end. What is written through
    /// the yielded reference becomes that entry's component; its entity stays.
    pub fn next(&mut self) -> (r: Option<(Entity, &'a mut T)>)
        ensures
            old(self).rest@.len() == 0 ==> {
                &&& r is None
                &&& final(self).rest@.len() == 0
                &&& final(old(self).rest)@ == final(final(self).rest)@
            },
            old(self).rest@.len() > 0 ==> {
                &&& r is Some
                &&& r.unwrap().0 == old(self).rest@[0].entity
                &&& *r.unwrap().1 == old(self).rest@[0].data
                &&& final(self).rest@ == old(self).rest@.drop_first()
                &&& final(old(self).rest)@ == seq![
                    (ComponentTableEntry { data: *final(r.unwrap().1), entity: r.unwrap().0 }),
                ] + final(final(self).rest)@
            },
    {
        let mut taken: &'a mut [ComponentTableEntry<T>] = &mut [];
        std::mem::swap(&mut self.rest, &mut taken);
        if taken.len() == 0 {
            return None;
        }
        let (first, tail) = taken.split_at_mut(1);
        self.rest = tail;
        let entry = &mut first[0];
        Some((entry.entity, &mut entry.data))
    }
}

} // verus!
