# ribble_ecs

An archetype-based entity-component-system library, verified with Verus.

* `src/` is the verified library. Entities are generational handles handed out by
  `EntityAllocator`. A `World<V>` stores the components of each entity (values of type `V`,
  keyed by a `ComponentId`) in the archetype whose sorted signature lists exactly the entity's
  component kinds; inserting or removing a component moves the entity's row between
  archetypes. Queries (`QueryBuilder`, `QueryState`, `Query`, the dynamic iterators) visit the
  archetypes whose signature passes an access list and a filter expression; a `Query` yields
  for each entity what its query data fetches (the handle, component references, or
  runtime-checked entity references). Worlds also hold
  singleton resources and double-buffered event queues. The contracts describe each operation
  on the abstract view `Map<Entity, Map<ComponentId, V>>` of the world.
* `tests/` runs the library on concrete values.
* `app/` holds what needs the standard library's locks or dynamic dispatch over user systems:
  `SharedWorld`, `System`, `Schedule`, and an error type implementing `std::error::Error`.
