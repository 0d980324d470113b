# minidox

Copy-on-write filesystem and memory state for forkable microVMs, written and verified in Verus.

A fork forest is a group of virtual machines that descend from each other by forking. A fork takes
the memory and the filesystem of its source at one instant, copies no page, and leaves source and
child independent: a page diverges when one of them writes to it, and a child outlives its source.

## Layout

- `src/fork`: the fork forest of guest memory and named files, and the supervisor that joins guest
  memory with a page cache.
- `src/cache`: the page caches behind DAX mappings. `page_cache` serves one filesystem; `shared`
  serves all branches of a lineage, with one page for each page identity.
- `src/redox`: what makes a RedoxFS filesystem forkable: copy-on-write disks, page identities, the
  record files of durable disks, and the protocols in which they are forked, saved and read back.
- `src/vmm`: guest RAM generations, the DAX window of a virtio-fs device, and the protocols in which
  guests are made, forked, saved and opened.
- `src/virtio`: the console, vsock and persistent memory devices, as far as they decide and keep
  state, and the bytes in which that state is saved.
- `src/ordered`, `src/layered`, `src/census`, `src/bytes`, `src/text`: ordered maps and sets, maps
  over shared generations, counts of shared things, byte and text helpers.
- `app`: the host side: RedoxFS, mapped memory, files, serialisation, and the loops that carry the
  protocols out.
- `tests`: the library as its users see it.

Properties that join several operations stand in the `laws` modules and next to the types that they
speak of, as public proof functions.

## What is trusted

The bytes of saved device state are written and read by bincode. `src/virtio/codec.rs` holds the only
functions that are believed without proof: each calls `bincode::serialize` or `bincode::deserialize`
on plain values and says which bytes stand for which values.

The traits `NodeStore` and `ForkableNodeStore` are for users of the caches to implement. What the
caches promise rests on a store that does what these traits say.
