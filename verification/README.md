# easy_store

A small file store for SPI NOR flash partitions, verified with Verus.

Files are kept as chains of 4096-byte clusters: a header cluster (name, lengths,
generation, CRCs and the first data bytes) followed by continuation clusters. Every
field is protected by CRC-32, writes are atomic at the file level (the header lands
last, an overwrite deletes the old copy only after the new one is whole), and each
start heals what a power loss left behind and migrates files of the older format.

## Layout

- `src/crc.rs`: CRC-32 and its specification.
- `src/format.rs`: the on-flash format: words, cluster images, header parsing, how a
  file is split over clusters.
- `src/flash.rs`: the `Flash` device trait the store runs on, and `RamFlash`.
- `src/store.rs`: the store, its model of a partition (`copies`, `read_result`,
  `wf`, ...), the operations with their contracts, and the proofs of what they keep.
- `src/recovery.rs`: what a store reopened after a power loss reads. Each store keeps
  a ghost history of the device after every write it made; the contracts of `write`,
  `append`, `delete` and `rename` say how every state in that history reopens, and
  `lemma_write_reopens` / `lemma_delete_reopens` prove it.
- `src/v1.rs`: parsing of the older format, for the migration at start-up. What
  opening a store does, healing and then moving each file of the older format, is
  stated by `opened`, `v1_migration` and `v1_step` in `src/store.rs`.
- `src/text.rs`: UTF-8 checks from the standard library.
- `app/main.rs`: a demo that bridges any `embedded_storage::Storage` driver to
  `Flash` and prints what a store holds.
- `tests/`: host tests on a RAM device, including devices that lose power after a
  given number of writes.
