# trenchcraft

Converts Minecraft schematics into Valve 220 `.map` files for TrenchBroom,
with the conversion pipeline verified by Verus.

```
trenchcraft <input> <output> [--greedy <none|full-only|all>]
```

Layout:

- `src/` — the verified library:
  - `unpack`: from a schematic file's bytes to its NBT value: gzip or raw
    content (the gzip decoding is `flate2`'s, the NBT decoding `fastnbt`'s);
  - `parser`: Sponge schematic NBT (`Width`, `Height`, `Length`,
    `Palette`, varint `BlockData`) into a voxel grid, with laws on varint
    reading and on the block each cell gets from its palette key;
  - `litematic`: the first Litematica region into a voxel grid;
  - `block_shapes`: full blocks, slabs and thin panels;
  - `filter`: culling of the air blocks and structure voids, texture paths;
  - `optimizer`: greedy meshing into brushes, at three merge levels;
  - `mesh_laws`: what meshing guarantees (every block is covered by a brush
    of its name, brushes lie only in blocks of their texture, every full
    block lies in exactly one full brush and the whole-cube brushes
    partition the full blocks, brushes come in scan order, growth stops only
    at a cell blocked by earlier brushes, an isolated slab or panel gives
    its own brushes, one brush per block with merging off, merging never
    adds brushes);
  - `exporter`: the `.map` text, with brushes written at their own corners,
    faces wound outward, each face line carrying its texture axes, and the
    file's line structure (7 lines and 9 per brush);
  - `text`, `assoc`, `properties`, `voxel`: text helpers, property maps and
    the grid types.
- `app/` — the command line: argument parsing, file reading and writing,
  and Litematica reading with `rustmatica`.
- `tests/` — tests of the library.
