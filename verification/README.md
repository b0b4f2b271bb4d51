# lazy_memfs

An in-memory file tree for a read-only FUSE file system whose directories
are produced on demand: a lazy directory becomes a real one the first time
a lookup or a listing reaches it, with children generated by a
`LazyResolver`. The contracts say which `gen_children` calls each operation
makes, with which argument, and that the children installed are the ones
that call handed out, as the resolver's own `generated` relation describes
them.

The library under `src/` is verified with Verus:

- `attr.rs`: inode numbers and node attributes.
- `tree.rs`: the tree (`StateInMem`), the children map (`ChildMap`, keys kept
  in increasing order), paths into the tree, and refinement (what resolving
  lazy directories may change).
- `search.rs`: answers by inode number (`get_file_obj`, `get_parent_inode_of`).
- `resolve.rs`: lookup by parent and name, and directory search, both with
  resolution of lazy directories.
- `laws.rs`: properties of the searches over whole trees.
- `fs_ops.rs`: the computations behind the file system calls (reads,
  directory listings, attributes), and the file system's own resolver,
  `TestResolver`, whose calls are stated exactly.
- `render.rs`: the text picture of a tree.

`app/` holds the FUSE program around it, built on the `fuser` crate.
