# gflux core

Bookkeeping of a reactive component system, verified with Verus.

- `src/model.rs`: the mathematical model: the parent relation, chains of
  ancestors, the set of components a round of rebuilds covers, and the laws
  about it.
- `src/table.rs`: `ComponentTable`, the table of live components (each with
  its parent and a caller-chosen handle) and of change marks.
- `src/tree.rs`: `ComponentTree` and `ComponentCtx`: creating root and child
  components, marking a component as changed (and telling whether the change
  callbacks are due), and starting a round of rebuilds: taking the change
  marks and computing which components to rebuild, oldest first.
- `src/order.rs`: the identifiers of an ordered set, in increasing order.
- `app/`: the shared-ownership layer (`Rc<RefCell<..>>`, weak trait objects,
  user lenses and callbacks) that gives the public `Component`,
  `ComponentTree`, `ComponentCtx` and `ComponentHandle` API on top of the core.
