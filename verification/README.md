# monster_hell

Rules, level generation and level-plan validation of a small first-person
maze shooter, written in Verus and proved against their contracts.

- `src/maze.rs`: tile grids, world/tile coordinates, breadth-first distances
  (with the laws that they neither over- nor underestimate walks), door and
  spawn placement, random tile picks.
- `src/generate.rs`: the rooms-and-corridors generator, with the law that its walkable tiles form one region.
- `src/layout.rs`: whole floors: seed per floor, spawn, exit, locked door with
  key and items, enemy placement, with the laws that a floor is fixed by the
  generator state it is drawn from (and so by seed and floor number), that
  the key lies before the door, and that on a generated floor the spawn is
  walkable and an exit on a walkable tile can be reached from it.
- `src/rng.rs`: the calls into `rand`; each draw's value and the state it
  leaves are named as functions of the state it starts from.
- `src/gate.rs`: validation of the level plan, with each `f32` held as its
  IEEE-754 bit pattern.
- `src/rules.rs`: weapons, shots, pickups, medkits, doors, the ten-floor run.
- `src/anim.rs`: the enemy sprite sheet and its frame sequences.
- `src/flow.rs`: menu and About screen decisions.
- `src/hermes.rs`: the event bus's message types.
- `app/`: the Bevy program around the library: rendering, physics, input,
  audio, UI, and the `f32` math of movement, aiming and timers.
