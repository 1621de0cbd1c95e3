use vstd::prelude::*;

verus! {

/// A handle to an entity: the slot `index` it occupies and the `id` that tells apart
/// the successive entities that occupy the same slot.
#[derive(Clone, Copy, Debug, PartialEq, Eq, Structural, PartialOrd, Ord, Hash)]
pub struct Entity {
    pub id: u32,
    pub index: u32,
}

/// The largest number of slots that `u32` indices can address.
pub open spec fn max_slots() -> int {
    0x1_0000_0000
}

/// The entities recorded in `slots` at positions `from` and later, in slot order:
/// position `i` holding `Some(id)` stands for the entity `{ id, index: i }`.
pub open spec fn live_entities(slots: Seq<Option<u32>>, from: int) -> Seq<Entity>
    decreases slots.len() - from,
{
    if from < 0 || from >= slots.len() {
        Seq::empty()
    } else {
        let rest = live_entities(slots, from + 1);
        match slots[from] {
            Some(id) => seq![Entity { id, index: #[verifier::truncate] (from as u32) }] + rest,
            None => rest,
        }
    }
}

/// The entities recorded from position `from` on are exactly the occupants of those slots,
/// listed with strictly increasing indices.
pub proof fn lemma_live_entities(slots: Seq<Option<u32>>, from: int)
    requires
        0 <= from,
        slots.len() <= max_slots(),
    ensures
        forall|e: Entity|
            #[trigger] live_entities(slots, from).contains(e) <==> (from <= e.index < slots.len()
                && slots[e.index as int] == Some(e.id)),
        forall|a: int, b: int|
            0 <= a < b < live_entities(slots, from).len() ==> (#[trigger] live_entities(slots, from)[a]).index
                < (#[trigger] live_entities(slots, from)[b]).index,
        forall|a: int|
            0 <= a < live_entities(slots, from).len() ==> from <= (#[trigger] live_entities(
                slots,
                from,
            )[a]).index < slots.len(),
    decreases slots.len() - from,
{
    if from < slots.len() {
        lemma_live_entities(slots, from + 1);
        let rest = live_entities(slots, from + 1);
        match slots[from] {
            Some(id) => {
                let e0 = Entity { id, index: from as u32 };
                let all = seq![e0] + rest;
                assert(live_entities(slots, from) == all);
                assert forall|e: Entity| #[trigger] all.contains(e) <==> (from <= e.index < slots.len()
                    && slots[e.index as int] == Some(e.id)) by {
                    if all.contains(e) {
                        let k = choose|k: int| 0 <= k < all.len() && all[k] == e;
                        if k > 0 {
                            assert(rest[k - 1] == e);
                            assert(rest.contains(e));
                        }
                    }
                    if from <= e.index < slots.len() && slots[e.index as int] == Some(e.id) {
                        if e.index == from {
                            assert(all[0] == e);
                        } else {
                            assert(rest.contains(e));
                            let k = choose|k: int| 0 <= k < rest.len() && rest[k] == e;
                            assert(all[k + 1] == e);
                        }
                    }
                }
                assert forall|a: int, b: int| 0 <= a < b < all.len() implies (#[trigger] all[a]).index
                    < (#[trigger] all[b]).index by {
                    assert(all[b] == rest[b - 1]);
                    if a > 0 {
                        assert(all[a] == rest[a - 1]);
                    }
                }
                assert forall|a: int| 0 <= a < all.len() implies from <= (#[trigger] all[a]).index
                    < slots.len() by {
                    if a > 0 {
                        assert(all[a] == rest[a - 1]);
                    }
                }
            },
            None => {
                assert(live_entities(slots, from) == rest);
            },
        }
    } else {
        assert(live_entities(slots, from) =~= Seq::<Entity>::empty());
    }
}

/// Two slot tables that agree on every slot, reading past the end as empty, record the same
/// entities in the same order.
pub proof fn lemma_live_entities_agree(s1: Seq<Option<u32>>, s2: Seq<Option<u32>>, from: int)
    requires
        0 <= from,
        forall|i: int|
            from <= i ==> (if i < s1.len() {
                s1[i]
            } else {
                None
            }) == (if i < s2.len() {
                s2[i]
            } else {
                None
            }),
    ensures
        live_entities(s1, from) == live_entities(s2, from),
    decreases (if s1.len() > s2.len() {
        s1.len()
    } else {
        s2.len()
    }) - from,
{
    if from < s1.len() || from < s2.len() {
        lemma_live_entities_agree(s1, s2, from + 1);
        if from < s1.len() && from < s2.len() {
            assert(s1[from] == s2[from]);
        } else if from < s1.len() {
            assert(s1[from] is None);
            assert(live_entities(s2, from) =~= Seq::<Entity>::empty());
            assert(live_entities(s2, from + 1) =~= Seq::<Entity>::empty());
        } else {
            assert(s2[from] is None);
            assert(live_entities(s1, from) =~= Seq::<Entity>::empty());
            assert(live_entities(s1, from + 1) =~= Seq::<Entity>::empty());
        }
    } else {
        assert(live_entities(s1, from) =~= Seq::<Entity>::empty());
        assert(live_entities(s2, from) =~= Seq::<Entity>::empty());
    }
}

/// Walks the occupied slots of an id table, yielding one entity per occupied slot.
pub struct Entities<'a> {
    slots: &'a Vec<Option<u32>>,
    pos: usize,
}

impl<'a> View for Entities<'a> {
    type V = Seq<Entity>;

    /// The entities that are still to come, in order.
    closed spec fn view(&self) -> Seq<Entity> {
        live_entities(self.slots@, self.pos as int)
    }
}

impl<'a> Entities<'a> {
    /// The walk's position lies within the table.
    pub closed spec fn wf(&self) -> bool {
        self.pos <= self.slots@.len()
    }

    /// Starts a walk over all of `slots`.
    pub(crate) fn new(slots: &'a Vec<Option<u32>>) -> (r: Entities<'a>)
        ensures
            r.wf(),
            r@ == live_entities(slots@, 0),
    {
        Entities { slots, pos: 0 }
    }

    /// Yields the next entity of the walk, or `None` once every occupied slot was seen.
    pub fn next(&mut self) -> (r: Option<Entity>)
        requires
            old(self).wf(),
        ensures
            final(self).wf(),
            old(self)@.len() == 0 ==> r is None && final(self)@ == old(self)@,
            old(self)@.len() > 0 ==> r == Some(old(self)@[0]) && final(self)@ == old(self)@.drop_first(),
    {
        while self.pos < self.slots.len()
            invariant
                self.wf(),
                self@ == old(self)@,
            decreases self.slots@.len() - self.pos,
        {
            let index = self.pos;
            self.pos = self.pos + 1;
            assert(live_entities(self.slots@, index as int) == match self.slots@[index as int] {
                Some(id) => seq![Entity { id, index: index as u32 }] + live_entities(self.slots@, index + 1),
                None => live_entities(self.slots@, index + 1),
            });
            match self.slots[index] {
                Some(id) => {
                    let e = Entity { id, index: #[verifier::truncate] (index as u32) };
                    assert((seq![e] + self@).drop_first() =~= self@);
                    return Some(e);
                },
                None => {},
            }
        }
        None
    }
}

} // verus!
