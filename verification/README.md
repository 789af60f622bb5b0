# image-worker

Inspection, editing and conversion of Android filesystem images: ext4, EROFS, and
Android sparse containers around either. The library is written in Verus: what
each function returns, and what it writes, is stated in its contract and proved.

## Layout

* `src/buf.rs`, `src/math.rs`, `src/text.rs`, `src/error.rs`: bounds-checked
  little-endian numbers, block arithmetic, text and errors.
* `src/image.rs`, `src/sparse.rs`, `src/stream.rs`: raw and sparse containers,
  sparse encoding, and streaming in bounded pieces.
* `src/util.rs`: file signatures, permissions, sizes and patterns.
* `src/fs/`: ext4 and EROFS as they are read: superblocks, inodes, extents,
  compressed clusters, directories and extended attributes.
* `src/read/`, `src/command.rs`: the `read` command and the choice of a command.
* `src/write/`: the `write` command: the tree of nodes and the actions on it,
  EROFS images edited in place or built afresh, ext4 images built afresh, and
  conversion. Files that end in `_laws`, `_read_back`, `_images` or `_trees` hold
  proofs about what is written.
* `app/`: the program around the library: arguments, files, standard streams.
* `tests/`: tests that run the library.

## What is proved beyond single functions

* A sparse container holds the image that it was made of.
* Streaming a file gives what reading it whole gives.
* A fresh EROFS image, plain or compressed, and a fresh ext4 image, with shared
  blocks or without, read back as the tree that was written. An ext4 image keeps
  the labels that fit into its inodes.
* ext4 to EROFS and back keeps names, modes, owners, content and those labels, of
  all but `/lost+found`, which EROFS does not have.
* An edit in place keeps every byte that it does not touch, and the tree that is
  read afterwards is the tree that was edited. New inodes stand behind the end of
  the image, away from all that it holds.
* Actions change what they say, and leave every other path alone.
* Compression never makes a file larger than storing it, and an ext4 plan takes
  no more groups than are enough.

Compressed files need an index, whose words have room for blocks of up to 16384
bytes; with larger blocks every file of an EROFS image is stored as it is. Fresh
EROFS inodes are compact where the owner fits into 16 bits, and else extended.
ext4 images with blocks of more than 65536 bytes are not converted to EROFS.

What is taken on trust of the compression crates, of `rayon` and of `std` stands in
the doc comments of the functions that call them.
