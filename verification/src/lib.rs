//! Entity allocation and per-entity component storage for entity-component systems.
//!
//! An [`EntityAllocator`] hands out [`Entity`] handles made of a slot index and an id that
//! tells apart the successive entities of a slot; a [`ComponentTable`] stores at most one
//! value per entity in a dense array, with a table from entity slot to array position.

pub mod allocator;
pub mod component_table;
pub mod entity;
pub mod index_to_id;
pub mod layout;
pub mod table_laws;

pub use allocator::EntityAllocator;
pub use component_table::{
    ComponentTable, ComponentTableEntries, ComponentTableEntry, ComponentTableIter,
    ComponentTableIterMut,
};
pub use entity::{Entities, Entity};
pub use index_to_id::{IndexToId, IndexToIdSerialize};
