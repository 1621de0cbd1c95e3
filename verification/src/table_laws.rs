use vstd::prelude::*;
use crate::component_table::{ComponentTable, ComponentTableEntry};
use crate::entity::{lemma_live_entities, lemma_live_entities_agree, live_entities, Entity};
use crate::layout::{lemma_inv_distinct, lemma_inv_map, lookup, without_index};

verus! {

/// The entities of a well-formed table's entries are exactly the entities that have a
/// component, one entry each, so the table's length counts them.
pub proof fn law_len_counts_components<T>(t: ComponentTable<T>)
    requires
        t.wf(),
    ensures
        t@.dom().finite(),
        t@.dom().len() == t.entry_seq().len(),
        forall|e: Entity|
            #[trigger] t@.dom().contains(e) <==> exists|k: int|
                0 <= k < t.entry_seq().len() && (#[trigger] t.entry_seq()[k]).entity == e,
{
    let es = t.entry_seq();
    lemma_inv_map(es, t.position_seq(), t.id_seq());
    lemma_inv_distinct(es, t.position_seq(), t.id_seq());
    let owners = es.map_values(|x: ComponentTableEntry<T>| x.entity);
    assert forall|a: int, b: int| 0 <= a < owners.len() && 0 <= b < owners.len() && a != b implies owners[a]
        != owners[b] by {
        assert(es[a].entity.index != es[b].entity.index);
    }
    owners.unique_seq_to_set();
    assert forall|e: Entity| #[trigger] t@.dom().contains(e) <==> exists|k: int|
        0 <= k < es.len() && (#[trigger] es[k]).entity == e by {
        if t@.dom().contains(e) {
            let k = lookup(es, t.position_seq(), e)->0;
            assert(es[k].entity == e);
        }
    }
    assert forall|e: Entity| #[trigger] t@.dom().contains(e) <==> owners.to_set().contains(e) by {
        if owners.to_set().contains(e) {
            let k = choose|k: int| 0 <= k < owners.len() && owners[k] == e;
            assert(es[k].entity == e);
        }
        if t@.dom().contains(e) {
            let k = lookup(es, t.position_seq(), e)->0;
            assert(owners[k] == e);
        }
    }
    assert(t@.dom() =~= owners.to_set());
}

/// Two well-formed tables that hold the same entries hold the same components, whatever
/// their slot tables: rebuilding a table from its entries gives back the same table.
pub proof fn law_same_entries_same_components<T>(t: ComponentTable<T>, u: ComponentTable<T>)
    requires
        t.wf(),
        u.wf(),
        t.entry_seq() == u.entry_seq(),
    ensures
        t@ == u@,
{
    lemma_inv_map(t.entry_seq(), t.position_seq(), t.id_seq());
    lemma_inv_map(u.entry_seq(), u.position_seq(), u.id_seq());
    assert forall|e: Entity| #[trigger] t@.dom().contains(e) implies u@.dom().contains(e) && u@[e] == t@[e] by {
        let k = lookup(t.entry_seq(), t.position_seq(), e)->0;
        assert(t.entry_seq()[k].entity == e);
    }
    assert forall|e: Entity| #[trigger] u@.dom().contains(e) implies t@.dom().contains(e) by {
        let k = lookup(u.entry_seq(), u.position_seq(), e)->0;
        assert(u.entry_seq()[k].entity == e);
    }
    assert(t@ =~= u@);
}

/// What an insertion makes of a table's components: the inserted entity reads back the
/// inserted value, entities of other slots keep theirs, and other entities of the same slot
/// lose theirs.
pub proof fn law_insert_then_get<T>(m: Map<Entity, T>, entity: Entity, data: T)
    ensures
        without_index(m, entity.index).insert(entity, data).dom().contains(entity),
        without_index(m, entity.index).insert(entity, data)[entity] == data,
        forall|e: Entity|
            e.index != entity.index ==> (#[trigger] without_index(m, entity.index).insert(
                entity,
                data,
            ).dom().contains(e) <==> m.dom().contains(e)),
        forall|e: Entity|
            e.index != entity.index && m.dom().contains(e) ==> #[trigger] without_index(
                m,
                entity.index,
            ).insert(entity, data)[e] == m[e],
        forall|e: Entity|
            e.index == entity.index && e != entity ==> !(#[trigger] without_index(
                m,
                entity.index,
            ).insert(entity, data).dom().contains(e)),
{
}

/// Removing an entity's slot after inserting into it leaves the table as removing alone would.
pub proof fn law_remove_after_insert<T>(m: Map<Entity, T>, entity: Entity, data: T)
    ensures
        without_index(without_index(m, entity.index).insert(entity, data), entity.index)
            == without_index(m, entity.index),
{
    assert(without_index(without_index(m, entity.index).insert(entity, data), entity.index)
        =~= without_index(m, entity.index));
}

/// The entities recorded in a well-formed table's id table are those that have a component.
pub(crate) proof fn lemma_id_walk_is_domain<T>(t: ComponentTable<T>)
    requires
        t.wf(),
    ensures
        forall|e: Entity| #[trigger] live_entities(t.id_seq(), 0).contains(e) <==> t@.dom().contains(e),
{
    lemma_live_entities(t.id_seq(), 0);
    assert forall|e: Entity| #[trigger] live_entities(t.id_seq(), 0).contains(e) <==> t@.dom().contains(e) by {
        if e.index < t.id_seq().len() {
            assert(t.id_seq()[e.index as int] == match t.position_seq()[e.index as int] {
                Some(k) => Some(t.entry_seq()[k as int].entity.id),
                None => None,
            });
        }
    }
}

/// A table's entity walk and its entry walk see the same entities.
pub proof fn law_entities_match_entries<T>(t: ComponentTable<T>)
    requires
        t.wf(),
    ensures
        forall|e: Entity|
            #[trigger] live_entities(t.id_seq(), 0).contains(e) <==> exists|k: int|
                0 <= k < t.entry_seq().len() && (#[trigger] t.entry_seq()[k]).entity == e,
{
    law_len_counts_components(t);
    lemma_id_walk_is_domain(t);
}

/// Changing only the components of a well-formed table, and not which entity owns which
/// entry, keeps it well-formed and keeps which entities have a component.
pub proof fn law_component_updates_keep_layout<T>(t: ComponentTable<T>, u: ComponentTable<T>)
    requires
        t.wf(),
        u.position_seq() == t.position_seq(),
        u.id_seq() == t.id_seq(),
        u.entry_seq().len() == t.entry_seq().len(),
        forall|k: int|
            0 <= k < t.entry_seq().len() ==> (#[trigger] u.entry_seq()[k]).entity == t.entry_seq()[k].entity,
    ensures
        u.wf(),
        u@.dom() == t@.dom(),
{
    assert forall|k: int| 0 <= k < t.entry_seq().len() implies (#[trigger] t.entry_seq()[k]).entity
        == u.entry_seq()[k].entity by {
        assert(u.entry_seq()[k].entity == t.entry_seq()[k].entity);
    }
    assert(u@.dom() =~= t@.dom());
}


/// Two well-formed tables whose entries belong to the same entities, in the same order, have
/// the same entities and walk them in the same order, and each entity's component sits at the
/// same entry position in both. A table rebuilt from a clone of its entries is such a table.
pub proof fn law_same_owners_same_walk<T>(t: ComponentTable<T>, u: ComponentTable<T>)
    requires
        t.wf(),
        u.wf(),
        t.entry_seq().len() == u.entry_seq().len(),
        forall|k: int|
            0 <= k < t.entry_seq().len() ==> (#[trigger] t.entry_seq()[k]).entity == u.entry_seq()[k].entity,
    ensures
        live_entities(t.id_seq(), 0) == live_entities(u.id_seq(), 0),
        t@.dom() == u@.dom(),
        forall|e: Entity|
            #[trigger] t@.dom().contains(e) ==> exists|k: int|
                0 <= k < t.entry_seq().len() && (#[trigger] t.entry_seq()[k]).entity == e && t@[e]
                    == t.entry_seq()[k].data && u@[e] == u.entry_seq()[k].data,
{
    let (et, pt, it) = (t.entry_seq(), t.position_seq(), t.id_seq());
    let (eu, pu, iu) = (u.entry_seq(), u.position_seq(), u.id_seq());
    lemma_inv_map(et, pt, it);
    lemma_inv_map(eu, pu, iu);
    assert forall|i: int| 0 <= i implies (if i < it.len() {
        it[i]
    } else {
        None
    }) == (if i < iu.len() {
        iu[i]
    } else {
        None
    }) by {
        if i < it.len() && pt[i] is Some {
            let k = pt[i]->0 as int;
            assert(eu[k].entity == et[k].entity);
            assert(pu[eu[k].entity.index as int] == Some(k as u32));
        }
        if i < iu.len() && pu[i] is Some {
            let k = pu[i]->0 as int;
            assert(eu[k].entity == et[k].entity);
            assert(pt[et[k].entity.index as int] == Some(k as u32));
        }
    }
    lemma_live_entities_agree(it, iu, 0);
    assert forall|e: Entity| #[trigger] t@.dom().contains(e) implies u@.dom().contains(e) by {
        let k = lookup(et, pt, e)->0;
        assert(et[k].entity == e);
        assert(eu[k].entity == e);
    }
    assert forall|e: Entity| #[trigger] u@.dom().contains(e) implies t@.dom().contains(e) by {
        let k = lookup(eu, pu, e)->0;
        assert(eu[k].entity == e);
        assert(et[k].entity == e);
    }
    assert(t@.dom() =~= u@.dom());
    assert forall|e: Entity| #[trigger] t@.dom().contains(e) implies exists|k: int|
        0 <= k < et.len() && (#[trigger] et[k]).entity == e && t@[e] == et[k].data && u@[e]
            == eu[k].data by {
        let k = lookup(et, pt, e)->0;
        assert(et[k].entity == e);
        assert(eu[k].entity == e);
        assert(lookup(eu, pu, e) == Some(k));
    }
}


/// Inserting into a slot that holds no component and then removing that slot gives back the
/// inserted value and the components of before, one more and then one fewer.
pub proof fn law_insert_into_empty_slot_then_remove<T>(m: Map<Entity, T>, entity: Entity, data: T)
    requires
        forall|e: Entity| #[trigger] m.dom().contains(e) ==> e.index != entity.index,
    ensures
        without_index(m, entity.index).insert(entity, data).dom().contains(entity),
        without_index(m, entity.index).insert(entity, data)[entity] == data,
        without_index(without_index(m, entity.index).insert(entity, data), entity.index) == m,
        m.dom().finite() ==> without_index(m, entity.index).insert(entity, data).dom().len() == m.dom().len()
            + 1,
{
    assert(without_index(m, entity.index) =~= m);
    assert(without_index(without_index(m, entity.index).insert(entity, data), entity.index) =~= m);
    assert(!m.dom().contains(entity));
}

} // verus!
