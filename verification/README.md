# synaptic kernel

A graph store for a single producer and any number of consumers, laid out in
one flat plane of `i32` cells. Nodes and synapses live in slot-allocated
entry stores; their published state travels to readers through triple
buffers; retired slots come back only after every reader has acknowledged the
generation in which they were retired.

## Layout

- `src/primitives/`: bitmap, ring buffer, free list, slot allocator, triple
  buffers, entry stores, lookup tables and their registries.
- `src/topology/`: node chain and synapse lists built on the entry stores;
  `network/list_shape.rs` states when the lists and chains are well formed
  (`NetworkWriter::shaped`, `NetworkWriter::chained`), which every kernel
  operation keeps and on which removals are promised to succeed.
- `src/metadata/`: the user metadata region at the head of the plane.
- `src/epoch.rs`, `src/epoch_mirror.rs`, `src/control_plane.rs`: one memory
  layout (an epoch), its read-side mirror, and the generation handshake.
- `src/kernel.rs`: the producer's entry point (create, load, mutate, publish,
  serialise, grow).
- `app/`: load figures in floating point on top of the library's counts.

Every type in `src/` is a layout descriptor over the plane; each operation
takes the plane it works on as an argument, and its contract states the plane
after the call in terms of the views the descriptor defines.
