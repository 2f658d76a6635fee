# Elderforge

A small game-engine core: XPBD rigid- and soft-body physics, a wgpu
renderer, and a winit platform layer.

The crate is split in two:

- `src/` is the verified library (Verus). It holds the engine's discrete
  logic with its contracts: generational handles and body storage, island
  sleeping (union-find over contact, joint and constraint couplings),
  broadphase candidate pairs, the expanding-polytope horizon, Kuhn lattice
  tetrahedra, unique edges and boundary faces of tetrahedral meshes, cloth
  constraint topology and particle-run bookkeeping, debug-overlay
  decisions, held-input tracking, the frame-loop exit decision, the GPU
  resource cache, surface and buffer sizing, and primitive index topology.
- `app/` is the runtime around it: everything that computes in floating
  point (integration, constraint projection, GJK/EPA, the BVH, debug
  geometry, vertex data, the frame clock) and everything that talks to the
  GPU or the window system. It calls into the library for every decision
  listed above.

`tests/` exercises the library from outside.

The math types of `app/` (`Vec3`, `Quat`, `Mat3`, `Mat4`, `Vec4`) come from
`glam`, the vector library the engine's math layer is built on.
