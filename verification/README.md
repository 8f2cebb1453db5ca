# xv6 file system images

A library that reads and changes xv6 file system images held in memory:
the super block, inode records, the block map of an inode, reading and
writing inode contents, allocating and truncating inodes, directory lookup,
adding and clearing directory entries, and path walks. On top of these sit
the four image commands `ls`, `get`, `put` and `rm`.

- `src/fs.rs`: layout constants, record types and the byte codecs.
- `src/libfs.rs`: inode-level operations.
- `src/dir.rs`: directories and paths.
- `src/cmd.rs`: what the commands compute.
- `src/laws.rs`: properties relating the operations: a read gives back
  what a write wrote, also through the record read back from the image; a
  read in two parts gives what one read gives; a
  write leaves the rest alone; `put` of non-empty data then `get` gives the
  data back, for an existing regular file named through any number of
  directories and for a file that `put` creates under a one-name path
  (when the write misses what the lookup reads); allocation hands out the
  number it reads back and never the same number twice; create then
  lookup, and adding an entry then looking it up, find it (one-name paths,
  through the directory's record read back); `rm` of a name that occurs
  once makes a lookup of the path find nothing; path names compose when
  paths are joined.
- `app/main.rs`: the command-line program around the library.

Every operation is specified by a spec function that also says on which
images it cannot complete (a read or write outside the image, an arithmetic
overflow). The `try_` functions report those cases; the plain functions
require that they do not arise.
