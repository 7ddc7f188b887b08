# texture_graph

A procedural texture graph: layers that read one another, and an output that
reads layers. The library decides everything that can be decided about a graph
without computing a pixel, and Verus proves its contracts.

- `src/` is the library.
  - The model: `graph`, `kind`, `param`, `color`, `scalar`, `names`, `id`.
  - Editing: `edit`, `bind` (parameters), `canvas`, `rewire`, `socket`, `lists`.
  - Reachability and order: `reach`, `traverse`, `slots`, `schedule`.
  - What a bake covers and computes: `domains`, `passes`, `bake`, `placement`
    (sphere bakes), `volume`, `pool`, `frozen` (a removed parameter).
  - What an evaluation decides: `eval`, `sampling`, `noise`, `crater`, `hash`,
    `fraction`, `sphere`.
  - Bytes in and out: `bytes`, `readback`, `file`, `scene`.
- `tests/` runs the library on concrete graphs and values.
- `app/` is ordinary Rust around it: floating-point evaluation, files and the
  GPU.

A floating-point number is carried by its bit pattern (`Scalar`). Comparing,
clamping and negating are proved here; adding and multiplying are left to `app/`,
which is handed the decision it needs before or after each.

Laws that relate several functions are the public proof functions named `law_*`,
each beside the functions that it speaks of.

The one assumption is that `bytemuck::cast_slice` hands out the bytes of words in
order (`bytes::cast_words`).
