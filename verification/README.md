# cs_flythrough

The verified core of a GoldSrc (Counter-Strike 1.6) map flythrough
screensaver, written in Verus.

`src/` is the library, verified by Verus. Its public functions carry
`requires`/`ensures` contracts (a few private helpers rely on the contracts of
what they call):

- `bsp::nav` — the binary NAV reader and the depth-first camera route over the
  area graph.
- `bsp::entity` — the entity lump's `"key" "value"` blocks and the spawn-point
  waypoints.
- `bsp::map` — reading a BSP file through qbsp, and the plan of its mesh.
- `bsp::parse` — which WADs, textures and faces a map draws, and the
  fan-triangulated index buffer with sky faces last.
- `bsp::wad` — WAD3 directories, mip textures to RGBA, and guillotine packing
  into one texture atlas (a magenta tile for names no WAD holds).
- `bsp::collision` — the point-in-solid walk of the BSP tree.
- `maplist` — the map compatibility ledger and BSP lookup under an install.
- `cli`, `capture`, `config` — headless command-line flags, frame capture
  helpers, and map choice.
- `recording` — the keyboard state of the route-recording mode.

Calls into other crates (goldsrc-rs, guillotiere, qbsp) and a few std
functions sit behind small trusted wrappers whose contracts restate what
those functions do, or name their result where it takes pages to state.

`app/` is the program around the library: file and GPU I/O, the wgpu/winit
renderer, serde formats, and the floating-point camera and geometry.

`tests/` exercises the library on concrete inputs.
