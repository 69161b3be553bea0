# game_engine

A small data-oriented ECS game engine. The library under `src/` holds the
parts of the engine that decide on plain values, each with a Verus contract:

- `components`: marker and data components, collision layers
  (`CollisionGroups::can_collide`, with proofs that it is symmetric and
  means "each side belongs to a layer the other filters for"), the
  trigger-volume tracker that turns two frames of overlaps into enter /
  exit / stay events, and the platform a grounded entity rides on.
- `resources`: the spatial hash grid of the broad phase (insertion of an
  entity into a box of cells, neighbourhood lookup, clearing).
- `systems`: the grid rebuild step, with proofs that a rebuilt cell lists
  exactly the entities covering it and that the neighbourhood lookup misses
  no neighbour.

`app/` is the program around it: the `bevy_ecs` world and schedule, and the
floating-point physics (integration, collision response, damage, camera
shake, time dilation), which calls into the library for the decisions above.
