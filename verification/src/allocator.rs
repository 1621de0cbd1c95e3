use vstd::prelude::*;
use crate::entity::Entity;
use crate::index_to_id::{pad_slots, IndexToId};

verus! {

/// Hands out entities: every allocation gets a fresh id, and the slot index of a freed
/// entity is handed out again, the most recently freed first, before any new index.
pub struct EntityAllocator {
    next_id: u32,
    next_index: u32,
    index_to_id: IndexToId,
    free_indices: Vec<u32>,
    handed_out: Ghost<Set<Entity>>,
}

impl EntityAllocator {
    /// The id that the next allocation hands out.
    pub closed spec fn spec_next_id(&self) -> u32 {
        self.next_id
    }

    /// The number of slot indices handed out so far.
    pub closed spec fn spec_next_index(&self) -> u32 {
        self.next_index
    }

    /// For each slot index handed out so far, the id of its live entity, if any.
    pub closed spec fn slots(&self) -> Seq<Option<u32>> {
        self.index_to_id@
    }

    /// The freed slot indices waiting to be handed out again; the last one goes first.
    pub closed spec fn free_list(&self) -> Seq<u32> {
        self.free_indices@
    }

    /// Every entity handed out since the allocator was made or last cleared, freed or not.
    pub closed spec fn spec_handed_out(&self) -> Set<Entity> {
        self.handed_out@
    }

    /// The allocator's invariant: a slot exists for every index handed out, and no more
    /// indices than ids were handed out; the free list holds exactly the empty slots, each
    /// once; every live entity was handed out; and the entities handed out have distinct ids
    /// below the next one.
    pub open spec fn wf(&self) -> bool {
        &&& self.slots().len() == self.spec_next_index()
        &&& self.spec_next_index() <= self.spec_next_id()
        &&& self.free_list().no_duplicates()
        &&& forall|k: int|
            0 <= k < self.free_list().len() ==> {
                let i = #[trigger] self.free_list()[k];
                &&& i < self.spec_next_index()
                &&& self.slots()[i as int] is None
            }
        &&& forall|i: int|
            0 <= i < self.slots().len() && #[trigger] self.slots()[i] is None ==> self.free_list().contains(
                i as u32,
            )
        &&& forall|i: int|
            0 <= i < self.slots().len() && #[trigger] self.slots()[i] is Some ==> self.spec_handed_out().contains(
                Entity { id: self.slots()[i]->0, index: i as u32 },
            )
        &&& forall|e: Entity|
            #[trigger] self.spec_handed_out().contains(e) ==> e.id < self.spec_next_id() && e.index
                < self.spec_next_index()
        &&& forall|e1: Entity, e2: Entity|
            #[trigger] self.spec_handed_out().contains(e1) && #[trigger] self.spec_handed_out().contains(e2)
                && e1.id == e2.id ==> e1 == e2
    }

    /// Whether `entity` has a slot that this allocator handed out.
    pub open spec fn has_slot(&self, entity: Entity) -> bool {
        entity.index < self.spec_next_index()
    }

    /// Whether `entity` is allocated and not yet freed.
    pub open spec fn is_live(&self, entity: Entity) -> bool {
        self.has_slot(entity) && self.slots()[entity.index as int] == Some(entity.id)
    }

    /// Allocates an entity: the next id, in the most recently freed slot, or else in a new one.
    pub fn allocate(&mut self) -> (r: Entity)
        requires
            old(self).wf(),
            old(self).spec_next_id() < u32::MAX,
        ensures
            final(self).wf(),
            r.id == old(self).spec_next_id(),
            final(self).spec_next_id() == old(self).spec_next_id() + 1,
            old(self).free_list().len() > 0 ==> {
                &&& r.index == old(self).free_list().last()
                &&& final(self).free_list() == old(self).free_list().drop_last()
                &&& final(self).spec_next_index() == old(self).spec_next_index()
            },
            old(self).free_list().len() == 0 ==> {
                &&& r.index == old(self).spec_next_index()
                &&& final(self).free_list() == old(self).free_list()
                &&& final(self).spec_next_index() == old(self).spec_next_index() + 1
            },
            final(self).slots() == pad_slots(old(self).slots(), r.index + 1).update(
                r.index as int,
                Some(r.id),
            ),
            !old(self).is_live(r),
            forall|e: Entity| #[trigger] final(self).is_live(e) <==> (e == r || old(self).is_live(e)),
            forall|e: Entity| #[trigger] old(self).is_live(e) ==> e.index != r.index,
            forall|e: Entity| #[trigger] old(self).spec_handed_out().contains(e) ==> e.id < r.id,
            final(self).spec_handed_out() == old(self).spec_handed_out().insert(r),
    {
        let id = self.next_id;
        self.next_id = self.next_id + 1;
        let ghost free0 = self.free_indices@;
        let index = match self.free_indices.pop() {
            Some(index) => {
                assert(free0.drop_last() == free0.subrange(0, free0.len() - 1));
                assert(free0[free0.len() - 1] == free0.last());
                index
            },
            None => {
                let index = self.next_index;
                self.next_index = self.next_index + 1;
                index
            },
        };
        let entity = Entity { id, index };
        let ghost slots0 = self.index_to_id@;
        self.index_to_id.insert(entity);
        proof {
            let h0 = self.handed_out@;
            self.handed_out@ = h0.insert(entity);
            let h1 = self.handed_out@;
            assert(h0 == old(self).spec_handed_out());
            assert forall|e: Entity| #[trigger] h1.contains(e) implies e.id < self.next_id && e.index
                < self.next_index by {
                if e != entity {
                    assert(old(self).spec_handed_out().contains(e));
                }
            }
            assert forall|e1: Entity, e2: Entity|
                #[trigger] h1.contains(e1) && #[trigger] h1.contains(e2) && e1.id == e2.id implies e1
                == e2 by {
                if e1 != entity && e2 != entity {
                    assert(old(self).spec_handed_out().contains(e1));
                    assert(old(self).spec_handed_out().contains(e2));
                } else if e1 != entity {
                    assert(old(self).spec_handed_out().contains(e1));
                } else if e2 != entity {
                    assert(old(self).spec_handed_out().contains(e2));
                }
            }
            assert forall|i: int| 0 <= i < self.index_to_id@.len() && #[trigger] self.index_to_id@[i] is Some
                implies h1.contains(Entity { id: self.index_to_id@[i]->0, index: i as u32 }) by {
                if i != index {
                    assert(slots0[i] == self.index_to_id@[i]);
                    assert(h0.contains(Entity { id: slots0[i]->0, index: i as u32 }));
                } else {
                    assert(Entity { id: self.index_to_id@[i]->0, index: i as u32 } == entity);
                }
            }
            let slots1 = self.index_to_id@;
            assert(slots1.len() == self.next_index);
            assert forall|k: int| 0 <= k < self.free_indices@.len() implies {
                let i = #[trigger] self.free_indices@[k];
                &&& i < self.next_index
                &&& slots1[i as int] is None
            } by {
                assert(self.free_indices@[k] == free0[k]);
                assert(free0[k] != free0[free0.len() - 1]);
            }
            assert forall|i: int| 0 <= i < slots1.len() && #[trigger] slots1[i] is None
                implies self.free_indices@.contains(i as u32) by {
                assert(i != index);
                assert(slots0[i] is None);
                assert(free0.contains(i as u32));
                let k = choose|k: int| 0 <= k < free0.len() && free0[k] == i as u32;
                assert(k != free0.len() - 1);
                assert(self.free_indices@[k] == i as u32);
            }
            assert forall|e: Entity| #[trigger] self.is_live(e) <==> (e == entity || old(self).is_live(e)) by {
                if e.index == index {
                } else {
                }
            }
        }
        entity
    }

    /// Whether `entity` is allocated and not yet freed.
    pub fn entity_exists(&self, entity: Entity) -> (r: bool)
        requires
            self.wf(),
            self.has_slot(entity),
        ensures
            r == self.is_live(entity),
    {
        self.index_to_id.contains(entity)
    }

    /// Frees `entity` if it is live, making its slot available again; otherwise does nothing.
    pub fn free(&mut self, entity: Entity)
        requires
            old(self).wf(),
            old(self).has_slot(entity),
        ensures
            final(self).wf(),
            old(self).is_live(entity) ==> {
                &&& final(self).slots() == old(self).slots().update(entity.index as int, None)
                &&& final(self).free_list() == old(self).free_list().push(entity.index)
                &&& final(self).spec_next_id() == old(self).spec_next_id()
                &&& final(self).spec_next_index() == old(self).spec_next_index()
            },
            !old(self).is_live(entity) ==> *final(self) == *old(self),
            final(self).spec_handed_out() == old(self).spec_handed_out(),
            forall|e: Entity| #[trigger] final(self).is_live(e) <==> (e != entity && old(self).is_live(e)),
    {
        if self.entity_exists(entity) {
            let ghost free0 = self.free_indices@;
            let ghost slots0 = self.index_to_id@;
            self.index_to_id.remove(entity.index);
            self.free_indices.push(entity.index);
            proof {
                let free1 = self.free_indices@;
                let slots1 = self.index_to_id@;
                assert forall|k: int| 0 <= k < free1.len() implies {
                    let i = #[trigger] free1[k];
                    &&& i < self.next_index
                    &&& slots1[i as int] is None
                } by {
                    if k < free0.len() {
                        assert(free1[k] == free0[k]);
                    }
                }
                assert forall|i: int, j: int| 0 <= i < free1.len() && 0 <= j < free1.len() && i != j
                    implies free1[i] != free1[j] by {
                    if i < free0.len() && j < free0.len() {
                        assert(free1[i] == free0[i] && free1[j] == free0[j]);
                    } else if i < free0.len() {
                        assert(free1[i] == free0[i]);
                        assert(slots0[free0[i] as int] is None);
                    } else {
                        assert(free1[j] == free0[j]);
                        assert(slots0[free0[j] as int] is None);
                    }
                }
                assert forall|i: int| 0 <= i < slots1.len() && #[trigger] slots1[i] is None
                    implies free1.contains(i as u32) by {
                    if i == entity.index {
                        assert(free1[free1.len() - 1] == entity.index);
                    } else {
                        assert(slots0[i] is None);
                        let k = choose|k: int| 0 <= k < free0.len() && free0[k] == i as u32;
                        assert(free1[k] == i as u32);
                    }
                }
            }
        }
    }

    /// Forgets every entity: ids and indices start again from zero.
    pub fn clear(&mut self)
        ensures
            final(self).wf(),
            final(self).spec_next_id() == 0,
            final(self).spec_next_index() == 0,
            final(self).slots() == Seq::<Option<u32>>::empty(),
            final(self).free_list() == Seq::<u32>::empty(),
            final(self).spec_handed_out() == Set::<Entity>::empty(),
    {
        self.handed_out = Ghost(Set::empty());
        self.next_id = 0;
        self.next_index = 0;
        self.index_to_id.clear();
        self.free_indices.clear();
    }
}

impl Default for EntityAllocator {
    /// An allocator that has handed out nothing.
    fn default() -> (r: EntityAllocator)
        ensures
            r.wf(),
            r.spec_next_id() == 0,
            r.spec_next_index() == 0,
            r.slots() == Seq::<Option<u32>>::empty(),
            r.free_list() == Seq::<u32>::empty(),
            r.spec_handed_out() == Set::<Entity>::empty(),
    {
        EntityAllocator {
            next_id: 0,
            next_index: 0,
            index_to_id: IndexToId::new_with_capacity(0),
            free_indices: Vec::new(),
            handed_out: Ghost(Set::empty()),
        }
    }
}


/// A slot has at most one live entity at a time.
pub proof fn law_one_live_entity_per_slot(a: EntityAllocator, e1: Entity, e2: Entity)
    requires
        a.wf(),
        a.is_live(e1),
        a.is_live(e2),
        e1.index == e2.index,
    ensures
        e1 == e2,
{
}

/// Every entity handed out since the allocator was made or last cleared, live or freed, has an
/// id below the one the next allocation hands out: ids are never handed out twice.
pub proof fn law_next_id_is_fresh(a: EntityAllocator, e: Entity)
    requires
        a.wf(),
        a.spec_handed_out().contains(e),
    ensures
        e.id < a.spec_next_id(),
{
}

/// Every live entity was handed out since the allocator was made or last cleared.
pub proof fn law_live_entities_were_handed_out(a: EntityAllocator, e: Entity)
    requires
        a.wf(),
        a.is_live(e),
    ensures
        a.spec_handed_out().contains(e),
{
    assert(a.slots()[e.index as int] is Some);
}

/// No two entities handed out since the allocator was made or last cleared share an id.
pub proof fn law_ids_never_repeat(a: EntityAllocator, e1: Entity, e2: Entity)
    requires
        a.wf(),
        a.spec_handed_out().contains(e1),
        a.spec_handed_out().contains(e2),
        e1 != e2,
    ensures
        e1.id != e2.id,
{
}

/// Freeing the entity that an allocation just handed out brings back the live entities of
/// before the allocation.
pub proof fn law_free_undoes_allocate(
    before: EntityAllocator,
    allocated: EntityAllocator,
    after: EntityAllocator,
    entity: Entity,
)
    requires
        !before.is_live(entity),
        forall|e: Entity| #[trigger] allocated.is_live(e) <==> (e == entity || before.is_live(e)),
        forall|e: Entity| #[trigger] after.is_live(e) <==> (e != entity && allocated.is_live(e)),
    ensures
        forall|e: Entity| #[trigger] after.is_live(e) <==> before.is_live(e),
{
    assert forall|e: Entity| #[trigger] after.is_live(e) <==> before.is_live(e) by {
        assert(allocated.is_live(e) <==> (e == entity || before.is_live(e)));
    }
}

} // verus!
