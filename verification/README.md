# coherent_items

The core of an item system for games in which an item is one lasting model
that moves between three placements — lying on the ground, equipped by a
holder, stored in a container — while everything attached to the model
(rust, spent ammunition, a remembered grid cell) survives every move.

`src/` is a Verus-verified library of plain values:

- `grid`, `inventory`: cell rectangles, fitting, first-fit packing with a
  remembered preferred cell, drag-and-drop commits, pick-up planning and a
  packing checker.
- `state`, `world`: the placement state machine. `ItemWorld` holds every item
  and holder; an entity may be both, like a bag that is carried and holds
  items, but nothing is ever linked to itself. Equipping, storing, dropping,
  repacking, repairing a cut link and despawning keep its invariant (one
  placement per item, at most one equipped item per holder, links only to
  known holders) and keep the packing valid: every stored item of a gridded
  container packed inside the grid without overlap. Giving a packed item a
  new footprint leaves it where it lies, so the packing stays valid only if
  the new footprint fits there.
- `laws`: properties that span operations (equipping is exclusive, moves keep
  every item, re-stowing returns an item to its remembered cell, a dying
  holder drops everything, the reverse query agrees with the placements).
- `stats`: per-source modifier lists of a stat; the fold over a base value is
  floating point and lives with the caller.
- `firing`, `registry`, `views`: the firing rule, item definitions by key,
  where a view hangs and how a tint is applied.

`app/` is a partial Bevy integration: components mirroring the core's state,
observers and systems that call into it, and the floating-point parts
(camera, stat fold, cooldown timing, rust timer). It has no rendering: the
item views, tints, the inventory panel with its icons and drag-and-drop, and
the HUD need Bevy's rendering and UI features, which this build leaves out,
so the scene it sets up shows nothing.
