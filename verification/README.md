# storage_device

A storage device representation to help filesystem development, verified with Verus.

- `BlockDevice` (in `src/block.rs`): a device of fixed-size blocks, described by the map from
  block positions to the blocks it holds. A successful read hands out the blocks of that map,
  a successful write overwrites them. `Block` is a 512-byte block; `BlockData` is what any
  block type exposes of its bytes.
- `StorageDevice` and `StorageBlockDevice` (in `src/storage_device.rs`): a device of bytes,
  and the adapter that turns any block device into one, reading and writing at arbitrary
  offsets and lengths. Its bytes are those of the blocks of the inner device, block after
  block.
- `CachedBlockDevice` (in `src/cached_block_device.rs`): a block device that keeps the most
  recently used blocks of another one in an LRU cache (from the `lru` crate, whose calls are
  declared in `src/lru_cache.rs`), writing dirty blocks back when they are evicted or flushed.
  It presents exactly the blocks of the inner device overlaid with the dirty cached blocks.
  It does not flush itself when dropped: call `flush` first.
- A device describes itself to the contracts by its spec functions (`view`, `inv`, and the
  size and persistence ones). The defaults describe nothing: `inv` is false by default, so the
  contracts promise nothing of a device that keeps them, such as the file devices of `app/`.
- `src/error.rs`: error types that describe a failed request.

`app/` holds the devices backed by `std::fs::File`, which do I/O and are not verified.
The tests are under `tests/`.
