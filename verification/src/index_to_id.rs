use vstd::prelude::*;
use crate::entity::{lemma_live_entities, live_entities, max_slots, Entities, Entity};

verus! {

/// `s` lengthened with `None` up to length `n`; unchanged when it is already that long.
pub open spec fn pad_slots(s: Seq<Option<u32>>, n: int) -> Seq<Option<u32>> {
    if n <= s.len() {
        s
    } else {
        s + Seq::new((n - s.len()) as nat, |i: int| None::<u32>)
    }
}

/// What slot `i` of `s` holds, reading past the end as `None`.
pub open spec fn slot_at(s: Seq<Option<u32>>, i: int) -> Option<u32> {
    if 0 <= i < s.len() {
        s[i]
    } else {
        None
    }
}

/// Lengthens `v` with `None` up to length `n`.
pub(crate) fn pad_with_none(v: &mut Vec<Option<u32>>, n: usize)
    ensures
        final(v)@ == pad_slots(old(v)@, n as int),
{
    let ghost v0 = v@;
    while v.len() < n
        invariant
            v0.len() <= v@.len(),
            v0.len() <= n ==> v@.len() <= n,
            v0.len() >= n ==> v@ == v0,
            v@.subrange(0, v0.len() as int) == v0,
            forall|i: int| v0.len() <= i < v@.len() ==> v@[i] == None::<u32>,
        decreases n - v@.len(),
    {
        v.push(None);
    }
    assert(v@ =~= pad_slots(v0, n as int));
}

/// For each entity slot index, the id of the entity that occupies it, if any.
#[derive(Clone, Debug)]
pub struct IndexToId {
    vec: Vec<Option<u32>>,
}

impl View for IndexToId {
    type V = Seq<Option<u32>>;

    closed spec fn view(&self) -> Seq<Option<u32>> {
        self.vec@
    }
}

impl IndexToId {
    /// Whether `e` is the entity recorded in its slot.
    pub open spec fn spec_contains(&self, e: Entity) -> bool {
        slot_at(self@, e.index as int) == Some(e.id)
    }

    /// A table of `capacity` empty slots.
    pub fn new_with_capacity(capacity: usize) -> (r: IndexToId)
        ensures
            r@ == Seq::new(capacity as nat, |i: int| None::<u32>),
    {
        let mut vec: Vec<Option<u32>> = Vec::with_capacity(capacity);
        pad_with_none(&mut vec, capacity);
        assert(vec@ =~= Seq::new(capacity as nat, |i: int| None::<u32>));
        IndexToId { vec }
    }

    /// Records `entity` as the occupant of its slot, growing the table when needed.
    pub fn insert(&mut self, entity: Entity)
        requires
            entity.index < usize::MAX,
        ensures
            final(self)@ == pad_slots(old(self)@, entity.index + 1).update(entity.index as int, Some(entity.id)),
    {
        let index = entity.index as usize;
        if index >= self.vec.len() {
            pad_with_none(&mut self.vec, index + 1);
        }
        self.vec.set(index, Some(entity.id));
    }

    /// Empties slot `index`, if the table has one.
    pub fn remove(&mut self, index: u32)
        ensures
            final(self)@ == if (index as int) < old(self)@.len() {
                old(self)@.update(index as int, None)
            } else {
                old(self)@
            },
    {
        let i = index as usize;
        if i < self.vec.len() {
            self.vec.set(i, None);
        }
    }

    /// Forgets every slot.
    pub fn clear(&mut self)
        ensures
            final(self)@ == Seq::<Option<u32>>::empty(),
    {
        self.vec.clear();
    }

    /// Whether `entity` is the recorded occupant of its slot.
    pub fn contains(&self, entity: Entity) -> (r: bool)
        ensures
            r == self.spec_contains(entity),
    {
        let i = entity.index as usize;
        i < self.vec.len() && self.vec[i] == Some(entity.id)
    }

    /// The recorded entities, in slot order.
    pub fn entities(&self) -> (r: Entities<'_>)
        ensures
            r.wf(),
            r@ == live_entities(self@, 0),
    {
        Entities::new(&self.vec)
    }
}


/// A compact form of an id table: the length of its leading run of slots whose entity id
/// equals the slot index, then every entity recorded after that run.
pub struct IndexToIdSerialize {
    pub entities: Vec<Entity>,
    pub num_matching_entities: u32,
}

/// The length of the run of slots, from `from` on, in which each slot holds its own index as id.
pub open spec fn matching_run_end(slots: Seq<Option<u32>>, from: int) -> int
    decreases slots.len() - from,
{
    if 0 <= from < slots.len() && slots[from] == Some(from as u32) {
        matching_run_end(slots, from + 1)
    } else {
        from
    }
}

/// The number of leading slots that hold their own index as id.
pub open spec fn matching_prefix_len(slots: Seq<Option<u32>>) -> int {
    matching_run_end(slots, 0)
}

/// The largest slot index among `entities`, or `-1` when there are none.
pub open spec fn max_index_of(entities: Seq<Entity>) -> int
    decreases entities.len(),
{
    if entities.len() == 0 {
        -1
    } else {
        let m = max_index_of(entities.drop_last());
        let i = entities.last().index as int;
        if i > m {
            i
        } else {
            m
        }
    }
}

/// The id of the last entity of `entities` in slot `index`, if any.
pub open spec fn last_id_at(entities: Seq<Entity>, index: int) -> Option<u32>
    decreases entities.len(),
{
    if entities.len() == 0 {
        None
    } else if entities.last().index == index {
        Some(entities.last().id)
    } else {
        last_id_at(entities.drop_last(), index)
    }
}

/// A compact form can be expanded: its leading run fits below its largest listed index.
pub open spec fn expandable(entities: Seq<Entity>, num_matching: u32) -> bool {
    &&& entities.len() == 0 || num_matching <= max_index_of(entities) + 1
    &&& forall|k: int| 0 <= k < entities.len() ==> (#[trigger] entities[k]).index < usize::MAX
}

/// The slots that a compact form expands to: the leading run, overwritten by the listed
/// entities in order, as long as the largest index that either mentions.
pub open spec fn expanded(entities: Seq<Entity>, num_matching: u32) -> Seq<Option<u32>> {
    let len = if entities.len() > 0 {
        max_index_of(entities) + 1
    } else {
        num_matching as int
    };
    Seq::new(
        len as nat,
        |i: int|
            match last_id_at(entities, i) {
                Some(id) => Some(id),
                None => if i < num_matching {
                    Some(i as u32)
                } else {
                    None
                },
            },
    )
}

/// The run from `from` on ends within the table, every slot in it holds its own index, and
/// the slot where it ends does not.
proof fn lemma_matching_run_end(slots: Seq<Option<u32>>, from: int)
    requires
        0 <= from <= slots.len(),
    ensures
        from <= matching_run_end(slots, from) <= slots.len(),
        forall|i: int| from <= i < matching_run_end(slots, from) ==> slots[i] == Some(i as u32),
        matching_run_end(slots, from) < slots.len() ==> slots[matching_run_end(slots, from)] != Some(
            matching_run_end(slots, from) as u32,
        ),
    decreases slots.len() - from,
{
    if from < slots.len() && slots[from] == Some(from as u32) {
        lemma_matching_run_end(slots, from + 1);
    }
}

/// The largest index bounds all indices and, if there are any, is one of them.
proof fn lemma_max_index_of(entities: Seq<Entity>)
    ensures
        forall|k: int| 0 <= k < entities.len() ==> (#[trigger] entities[k]).index <= max_index_of(entities),
        entities.len() > 0 ==> exists|k: int|
            0 <= k < entities.len() && (#[trigger] entities[k]).index == max_index_of(entities),
        entities.len() == 0 ==> max_index_of(entities) == -1,
        max_index_of(entities) >= -1,
    decreases entities.len(),
{
    if entities.len() > 0 {
        let init = entities.drop_last();
        lemma_max_index_of(init);
        assert forall|k: int| 0 <= k < entities.len() implies (#[trigger] entities[k]).index
            <= max_index_of(entities) by {
            if k < init.len() {
                assert(entities[k] == init[k]);
            }
        }
        if entities.last().index as int > max_index_of(init) {
            assert(entities[entities.len() - 1].index == max_index_of(entities));
        } else {
            let k = choose|k: int| 0 <= k < init.len() && (#[trigger] init[k]).index == max_index_of(init);
            assert(entities[k] == init[k]);
        }
    }
}

/// In a list where no two entities share a slot, the id at a slot is that of the entity
/// listed there, and there is none where no entity is listed.
proof fn lemma_last_id_at_unique(entities: Seq<Entity>, index: int)
    requires
        forall|a: int, b: int|
            0 <= a < b < entities.len() ==> (#[trigger] entities[a]).index != (#[trigger] entities[b]).index,
    ensures
        forall|k: int|
            0 <= k < entities.len() && (#[trigger] entities[k]).index == index ==> last_id_at(entities, index)
                == Some(entities[k].id),
        (forall|k: int| 0 <= k < entities.len() ==> (#[trigger] entities[k]).index != index) ==> last_id_at(
            entities,
            index,
        ) is None,
    decreases entities.len(),
{
    if entities.len() > 0 {
        let init = entities.drop_last();
        assert forall|a: int, b: int| 0 <= a < b < init.len() implies (#[trigger] init[a]).index
            != (#[trigger] init[b]).index by {
            assert(init[a] == entities[a] && init[b] == entities[b]);
        }
        lemma_last_id_at_unique(init, index);
        assert forall|k: int| 0 <= k < entities.len() && (#[trigger] entities[k]).index == index implies last_id_at(
            entities,
            index,
        ) == Some(entities[k].id) by {
            if k < init.len() {
                assert(init[k] == entities[k]);
                assert(entities[k].index != entities[entities.len() - 1].index);
            }
        }
        if forall|k: int| 0 <= k < entities.len() ==> (#[trigger] entities[k]).index != index {
            assert(entities[entities.len() - 1].index != index);
            assert forall|k: int| 0 <= k < init.len() implies (#[trigger] init[k]).index != index by {
                assert(init[k] == entities[k]);
            }
        }
    }
}

impl IndexToId {
    /// The compact form of this table.
    pub fn to_serialize(&self) -> (r: IndexToIdSerialize)
        ensures
            r.num_matching_entities == #[verifier::truncate] (matching_prefix_len(self@) as u32),
            r.entities@ == live_entities(self@, matching_prefix_len(self@)),
    {
        let ghost s = self@;
        let n = self.vec.len();
        let mut run: usize = 0;
        while run < n && self.vec[run] == Some(run as u32)
            invariant
                run <= n,
                n == s.len(),
                s == self@,
                matching_run_end(s, run as int) == matching_run_end(s, 0),
            decreases n - run,
        {
            run = run + 1;
        }
        let mut entities: Vec<Entity> = Vec::new();
        let mut i: usize = run;
        while i < n
            invariant
                run <= i <= n,
                n == s.len(),
                s == self@,
                entities@ + live_entities(s, i as int) == live_entities(s, run as int),
            decreases n - i,
        {
            let ghost before = entities@;
            match self.vec[i] {
                Some(id) => {
                    let e = Entity { id, index: #[verifier::truncate] (i as u32) };
                    entities.push(e);
                    assert(live_entities(s, i as int) == seq![e] + live_entities(s, i + 1));
                    assert(entities@ + live_entities(s, i + 1) =~= before + live_entities(s, i as int));
                },
                None => {
                    assert(live_entities(s, i as int) == live_entities(s, i + 1));
                },
            }
            i = i + 1;
        }
        assert(live_entities(s, n as int) =~= Seq::<Entity>::empty());
        assert(entities@ =~= entities@ + live_entities(s, n as int));
        IndexToIdSerialize { entities, num_matching_entities: #[verifier::truncate] (run as u32) }
    }

    /// The table that a compact form stands for.
    pub fn from_serialize(s: IndexToIdSerialize) -> (r: IndexToId)
        requires
            expandable(s.entities@, s.num_matching_entities),
        ensures
            r@ == expanded(s.entities@, s.num_matching_entities),
    {
        let ghost es = s.entities@;
        let num = s.num_matching_entities;
        let n = s.entities.len();
        proof {
            lemma_max_index_of(es);
        }
        let size: usize = if n > 0 {
            let mut max_index: u32 = s.entities[0].index;
            let mut i: usize = 1;
            assert(es.take(1).drop_last() =~= Seq::<Entity>::empty());
            assert(es.take(1).last() == es[0]);
            assert(max_index_of(es.take(1).drop_last()) == -1);
            while i < n
                invariant
                    1 <= i <= n,
                    n == es.len(),
                    es == s.entities@,
                    max_index == max_index_of(es.take(i as int)),
                decreases n - i,
            {
                let x = s.entities[i].index;
                assert(es.take(i + 1).drop_last() =~= es.take(i as int));
                if x > max_index {
                    max_index = x;
                }
                i = i + 1;
            }
            assert(es.take(n as int) =~= es);
            assert(max_index < usize::MAX) by {
                let k0 = choose|k: int| 0 <= k < es.len() && (#[trigger] es[k]).index == max_index_of(es);
                assert(es[k0].index < usize::MAX);
            }
            max_index as usize + 1
        } else {
            num as usize
        };
        let mut vec: Vec<Option<u32>> = Vec::with_capacity(size);
        pad_with_none(&mut vec, size);
        let mut j: u32 = 0;
        while j < num
            invariant
                j <= num,
                num <= size,
                vec@.len() == size,
                forall|i: int| 0 <= i < size ==> #[trigger] vec@[i] == if i < j {
                    Some(i as u32)
                } else {
                    None
                },
            decreases num - j,
        {
            vec.set(j as usize, Some(j));
            j = j + 1;
        }
        let mut k: usize = 0;
        assert(es.take(0) =~= Seq::<Entity>::empty());
        while k < n
            invariant
                k <= n,
                n == es.len(),
                es == s.entities@,
                vec@.len() == size,
                forall|t: int| 0 <= t < es.len() ==> (#[trigger] es[t]).index < size,
                forall|i: int| 0 <= i < size ==> #[trigger] vec@[i] == match last_id_at(es.take(k as int), i) {
                    Some(id) => Some(id),
                    None => if i < num {
                        Some(i as u32)
                    } else {
                        None
                    },
                },
            decreases n - k,
        {
            let e = s.entities[k];
            vec.set(e.index as usize, Some(e.id));
            assert(es.take(k + 1).drop_last() =~= es.take(k as int));
            assert(es.take(k + 1).last() == e);
            k = k + 1;
        }
        assert(es.take(n as int) =~= es);
        assert(vec@ =~= expanded(es, num));
        IndexToId { vec }
    }
}

/// Expanding the compact form of a table gives back every slot of the table, except that
/// trailing empty slots are dropped: the expansion is no longer than the table, agrees with it
/// on every slot, and ends, if it is not empty, with an occupied slot.
pub proof fn law_serialize_round_trip(slots: Seq<Option<u32>>)
    requires
        slots.len() <= max_slots(),
        slots.len() <= usize::MAX,
        matching_prefix_len(slots) < max_slots(),
    ensures
        expandable(
            live_entities(slots, matching_prefix_len(slots)),
            matching_prefix_len(slots) as u32,
        ),
        expanded(live_entities(slots, matching_prefix_len(slots)), matching_prefix_len(slots) as u32).len()
            <= slots.len(),
        forall|i: int|
            #[trigger] slot_at(
                expanded(
                    live_entities(slots, matching_prefix_len(slots)),
                    matching_prefix_len(slots) as u32,
                ),
                i,
            ) == slot_at(slots, i),
        expanded(live_entities(slots, matching_prefix_len(slots)), matching_prefix_len(slots) as u32).len()
            > 0 ==> expanded(
            live_entities(slots, matching_prefix_len(slots)),
            matching_prefix_len(slots) as u32,
        ).last() is Some,
{
    let n = matching_prefix_len(slots);
    let es = live_entities(slots, n);
    lemma_matching_run_end(slots, 0);
    lemma_live_entities(slots, n);
    lemma_max_index_of(es);
    assert forall|a: int, b: int| 0 <= a < b < es.len() implies (#[trigger] es[a]).index != (#[trigger] es[b]).index by {
        assert(es[a].index < es[b].index);
    }
    let ex = expanded(es, n as u32);
    if es.len() > 0 {
        let k0 = choose|k: int| 0 <= k < es.len() && (#[trigger] es[k]).index == max_index_of(es);
        assert(es[k0].index >= n);
    }
    assert forall|i: int| #[trigger] slot_at(ex, i) == slot_at(slots, i) by {
        lemma_last_id_at_unique(es, i);
        if n <= i < slots.len() && slots[i] is Some {
            let e = Entity { id: slots[i]->0, index: i as u32 };
            assert(es.contains(e));
            let k = choose|k: int| 0 <= k < es.len() && es[k] == e;
            assert(es[k].index == i);
            assert(i <= max_index_of(es));
        } else if 0 <= i < n {
        } else {
            assert forall|k: int| 0 <= k < es.len() implies (#[trigger] es[k]).index != i by {
                if es[k].index == i {
                    assert(es.contains(es[k]));
                }
            }
            if es.len() > 0 && i < ex.len() {
            }
        }
    }
    if ex.len() > 0 {
        let last = ex.len() - 1;
        assert(slot_at(ex, last) == slot_at(slots, last));
        if es.len() > 0 {
            let k0 = choose|k: int| 0 <= k < es.len() && (#[trigger] es[k]).index == max_index_of(es);
            assert(es.contains(es[k0]));
        }
    }
}

} // verus!
