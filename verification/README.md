# summit_surveyor

The verified core of Summit Surveyor, a ski-resort game, and of its
renderer `sukakpak`, written in Verus.

`src/` is the library; every public function in it carries a contract
that Verus proves:

- `graph`: weights, paths, the layered path-finding graph and Dijkstra's
  search, proved to return a shortest route to the destination;
- `terrain`, `lift`: the grid terrain layer, lift layers and the lift
  builder's state machine;
- `decision_tree`: the skier's plans over the lift network;
- `resources`: the renderer's bookkeeping of meshes, textures and
  framebuffers, with reference counts and lazy freeing that never frees
  what a mesh is still drawn with, and meshes released only once no
  running renderpass draws them;
- `shaders`: the table of loaded shader names that binding a shader
  looks up;
- `freelist`, `semaphores`, `ref_counter`, `memory`, `vertex`, `render`,
  `webgl`: deferred freeing per renderpass, the semaphore chain of a frame,
  reference counting, memory-type selection, vertex layouts, the vertex
  input a shader declares, and the renderer's plain descriptions;
- `events`, `gui`, `text`, `model`: held keys and buttons, GUI click
  states, the per-size text builder cache and render layers.

The `priority_queue` and `generational_arena` crates are used through the
contracts in `pqueue` and `arena`.

`app/` runs the game without a window: it holds the floating-point parts
(terrain heights, following a path, mouse movement) and drives the library.
`tests/` exercises the library on concrete inputs.
