# lib

Readers and builders for the binary formats of a Source-engine game, with their
behaviour stated as contracts and proved by Verus.

- `src/binary.rs`: little-endian byte and bit readers and writers, and the laws that a
  write read back gives what was written.
- `src/audio.rs`: RIFF/WAVE headers and their sample data.
- `src/bsp.rs` and `src/bsp/`: compiled maps: the header and lumps, entities, the
  visibility tree, surfaces and their triangulation, materials, lightmap packing,
  static props, ambient lighting, and the layout of draw batches.
- `src/abi.rs`: the plain records, status codes and argument checks of the engine's C
  interface.
- `src/text.rs`: the few steps that write numbers into messages.

`app/` holds what the proofs do not reach: floating-point geometry and lighting, the
`Display` and `Error` impls of the error types, and the launcher.

Verus checks the proofs from `src/lib.rs`; the tests under `tests/` run the library on
concrete maps, sounds and byte streams.
