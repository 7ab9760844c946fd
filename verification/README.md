# automerge_backend

The heart of a replicated document, verified with Verus. Each replica makes
changes on its own and hands them to the others. This library takes changes in
any order, applies each of them after all that it depends on, keeps what
concurrent changes gave a field side by side, and reports what each change did
to the document. Changes can be undone and redone.

## Executable code

- `op_set`: the operation set. It queues changes, delivers them in causal order,
  and keeps the undo and redo stacks.
- `object_store`: the maps, tables, lists and texts of a document.
- `list_order`: the order of the elements of a list.
- `concurrent_operations`: the operations that hold in a field.
- `actor_states`: the changes that were applied, and what each builds on.
- `clock`, `ids`, `protocol`, `diff`, `error`: clocks, identifiers, changes,
  the steps that are reported, and errors.
- `assoc`, `text`: maps and texts.

## What is stated

Every type has a mathematical view (`deep_view`). `objects` and `delivery` say
in terms of views what operations and changes do; `fields` looks at one field at
a time. The contracts of the executable code equate its results with these
models. What follows from the models is stated and proved as public proof
functions:

- `causal_laws`: changes are applied once, in causal order; none is lost; each
  field holds operations that are concurrent with one another.
- `convergence_laws`: replicas that applied the same changes hold the same
  document.
- `arrival_laws`: replicas to which the same changes came have applied the same,
  and miss the same, in whatever order the changes came.
- `undo_laws`: what an undo and a redo bring back.
- `list_laws`: what holds of the order of a list, and of every list that
  insertions make.
- `store_laws`: what holds of the objects of every document.
- `report_laws`: what holds of the steps that are reported.
- `sync_laws`: what holds of the changes that another replica misses.

One function is trusted: `text::quoted_text`, which has the standard library show
a text in quotes for an error message.
