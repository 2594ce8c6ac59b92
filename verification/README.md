# tre

`tre` draws a directory tree, like `tree`, with each entry's prefix, name, path
and link target. Besides the full drawing it has a line-limited drawing that
collapses single-child directory chains onto one line, offers lines to children
by how much structure they hold, and counts whatever it leaves out.

The library in `src/` is verified with Verus:

- `file_tree` builds the tree of a list of paths (a slab of nodes, each
  directory keeping an insertion-ordered map from names to node ids) and
  computes the per-node metadata; its contracts describe the tree as a value
  (`NodeView`), every stored node by its entry, and the metadata as a function
  of the tree. Laws state that every listed entry is found and, when no entry
  replaces another, that every stored node is reached from the root.
- `diagram_formatting` draws a tree, in full or within a line budget; the
  contracts say exactly which lines come out, and proof functions state the
  laws of the drawings (one line per node, the budget is never exceeded, a
  tree that fits is drawn whole, every top-level entry gets a line when the
  budget allows, every node is either drawn or counted among the hidden
  entries).
- `path_finders` holds the decisions of the directory listings: which entries
  are hidden or kept, the `git` arguments, and how `git`'s output becomes
  candidate paths.
- `paths`, `text` and `collections` hold what the rest rests on: the calls
  into `std::path`, `indexmap` and `slab`, each with the contract it is
  trusted for, and the text helpers.

`app/` is the part that touches the file system and runs `git`: walking
directories with `walkdir`, reading link targets and metadata, and making
paths absolute. It hands plain values to the library.
