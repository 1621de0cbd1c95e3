# entity_table

Entity allocation and component storage for entity-component systems, verified with Verus.

- `src/entity.rs` — the `Entity` handle and the walk over an id table's occupied slots.
- `src/index_to_id.rs` — the table from slot index to entity id, with its compact form and
  the proof that expanding the compact form gives the table back.
- `src/allocator.rs` — `EntityAllocator`: fresh ids, reuse of freed slots most recent first,
  and its laws.
- `src/component_table.rs` — `ComponentTable`: dense entries plus a slot table, with contracts
  over the map from entity to component and over the exact storage layout.
- `src/layout.rs` — the layout invariant of a component table and the lemmas about it.
- `src/table_laws.rs` — laws relating the component table's operations.
- `app/lib.rs` — the macros that declare an entity module of several component tables.
