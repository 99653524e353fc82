# frustracer

The logic of a frustum tracer, written in Verus: bound queries over a binary
hierarchy and over a wide tree collapsed from it, foliage that sways as rigid
cells, the split of a frame over two devices, the frame's constant block, the
upscaler's and the denoiser's planes, and the shader sources that a session
builds.

- `src/` is the library. Every function in it carries a contract, and the laws
  that span functions are public proof functions next to what they speak of.
- `app/` is the ordinary Rust around it: floating-point formulas, environment
  variables, files, threads.
- `tests/` runs the library on concrete values.

Floats cross into the library as their bit patterns (`src/bits.rs` says how
these compare). The library moves, compares and packs them; arithmetic on them
is done by `app/`, which hands the results in.

| module    | what it holds                                                     |
|-----------|-------------------------------------------------------------------|
| `bits`    | order, minimum, maximum and boxes over bit patterns               |
| `bvh`     | the binary hierarchy                                              |
| `frustum` | the nearest-geometry bound and the refinement of cuts             |
| `ftree`   | the wide tree: collapse, queries, quantized nodes, tree dispatch  |
| `foliage` | plants and cells, the split of their chunks, the gateway audit    |
| `frustcap`| the captured tiles as scene geometry                              |
| `frd`     | the denoiser's levers and tuning                                  |
| `fsr`     | provider versions, signal planes, staging of the upscaler's input |
| `gfx`     | shader sources, frame block, tile split, HUD rectangles, planes   |
| `scene`   | the plain scene that the others read                              |
| `text`, `tally`, `forest` | strings, counting and numbering, disjoint sets    |
