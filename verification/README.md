# lp-littlefs

A littlefs-compatible filesystem core written in Verus: the on-disk tag format,
metadata logs and their commits, block caches, the lookahead allocator, CTZ
skip-lists for file data, path resolution, directories and file handles. Every
function in `src/` carries a contract that Verus proves.

Layout of `src/`:

- `tag`, `crc`, `util`, `error`, `config`, `info`: tag fields, CRC-32, little-endian
  helpers, error codes, configuration and the info records.
- `block`: the block device trait, a RAM device, a power-loss wrapper and the
  storage used for alignment checks.
- `bdcache`: the read and program caches in front of a device (`BdContext`).
- `metadata`: fetching a metadata pair and looking tags up in its log.
- `commit`: appending commits, compaction, splitting, relocation and dropping pairs.
- `gstate`, `lfs_gstate`, `superblock`, `lfs_superblock`: global state and the
  superblock record.
- `lookahead`, `traverse`, `parent`: block allocation, the walk over every block in
  use, and finding a pair's predecessor or parent.
- `ctz`: skip-list indexing, lookup and extension.
- `path`, `dir`, `file`, `fs`, `mkfs`: path lookup, directory reading, file handles,
  stat, size, filesystem info, mkdir, remove and rename, formatting, and the mount
  check of the superblock (`lfs_mount`).

`tests/` holds the tests; `app/` holds helpers that drive the C littlefs through
littlefs2-sys over the same storage.
