# rustfs

A small file system over a block device, with its core logic verified in
Verus.

`src/` is the verified library:

- `bitmap`: allocation bitmaps (set, clear, first-fit find, block load/store).
- `inode`: an in-memory inode whose data lives in 4096-byte pages reached
  through a singly- and a doubly-indirect page list; read and write with the
  read-after-write laws, for one write and for a run of writes.
- `layout`: rounding division, the split of a transfer into per-block
  pieces, and the copy of fetched blocks into a read's buffer.
- `constants`, `disk_inode`, `directory`: the on-disk formats (32-byte inode
  records, 128-byte directory records) with their laws, and the planning of
  inode reads and writes.
- `file`: files, directories and open-file handles; the directory operations,
  which read the entries from disk when needed and give back the data to
  write.
- `fs`: the file-system state (layout, bitmaps, block allocation) and the
  blocks that formatting writes.
- `spdk`, `device`, `context`, `env`: handles on the block-device layer, the
  rules that turn its raw outcomes into results, and I/O buffer helpers.
- `ops`, `utils`, `bench`: server requests, unit rules of conversions, random
  file content, and the benchmark's configuration (read with the `toml`
  crate, with the nesting it may hold bounded), `dd` arguments, write size,
  report parsing, and the order of the requests of the sequential write
  through the block-device framework.

`app/` is the program around it: the socket servers, the conversions that
use floating point, file and device I/O, and running `dd`.

`tests/` runs the library on concrete values.
