# ruwr

A small WebGL engine for the browser, in two parts.

- `src/` is the verified library (Verus): entities and their components kept in
  sparse-set storages with world-wide singletons (`world`, `entity`), laws over
  whole runs of world calls (`history`), the scheduler that runs systems in the
  order they were added (`scheduler`), the id-handing stores of meshes,
  materials and shader programs with the sphere-mesh cache and the collision
  callbacks (`resources`), the octree of the collision broad phase, generic over
  its geometry (`octree`), the narrow phase that pairs colliders (`collision`),
  the switch of the active camera, the play/pause state and the plan of a frame
  (`scene`), the parsing of hex color codes (`color`) and the index buffers of
  sphere and strip meshes (`mesh`). Each public function carries a contract
  over a mathematical model, and the `law_*` proof functions state properties
  that relate several calls. What a shape or region test computes is left to
  the closures that the caller hands in, and the contracts speak of whatever
  they return.
- `app/` is the engine around it: the `wasm_bindgen` API, WebGL calls,
  floating-point math (glam), the render, gravity and collision systems, and
  the scene objects handed to JavaScript.
