# libfs

A small block-based file system, verified with Verus.

An image is a sequence of 4096-byte blocks: block 0 holds the superblock,
then come the inode bitmap, the data bitmap, the inode table (16 inodes of
256 bytes per block), an eight-block journal and the data blocks. A
directory keeps its entries in its first data block as a chain of records.

## Layout

- `src/` — the verified library.
  - `bytes`, `layout`: little-endian fields and the exact encoding of every
    on-disk record, with proofs that each encoding fixes its bytes.
  - `bitmap`, `inode`, `dir`: allocation bitmaps, inode slots and directory
    blocks (lookup, listing, insertion, removal); `dir_laws` proves what
    insertion and removal do to lookups and listings.
  - `cache`: the write-back block cache (least recently used eviction) with
    proofs that reads through it see the image plus the writes, over any run
    of reads, writes, evictions and flushes.
  - `journal`: the write-ahead journal, with the proofs that replaying a
    logged transaction has the effect of its writes, also after some of them
    were already made, and that a second recovery replays nothing.
  - `fs`, `ops`: attributes, read and write plans, and the file system
    operations of a mounted image (getattr, lookup, readdir, create, write,
    read, mkdir, unlink, setattr). Each operation runs on the blocks read so
    far, asks for the first block it reads that is missing (its contract
    names that block), and finally returns the block
    writes to perform and its answer; its contract says what it does to the
    image.
  - `ops_laws`: read after write, lookup after create, mkdir and unlink,
    getattr after setattr, and the superblock kept on disk.
  - `fsck`: the checker's rules, tallies and passes over the bitmaps; `fsck_walk`: the checker's walk
    of the directory tree, with the proof that its error count is the number
    of errors it reports; `format`: a fresh image.
- `tests/` — tests of the library.
- `app/` — the programs around it: `mkfs` writes a fresh image, `fsck <image>`
  checks one, `rustfs <image> <mountpoint>` mounts one through FUSE. They do
  the file I/O and hand the library plain blocks.
