# dm_core

A disk-usage analyzer: it scans a directory tree, keeps for every directory the
bytes of its own files and of everything below it together with its largest
files, and shows the result as depth-first views or as a treemap of nested
boxes drawn on a terminal.

The library in `src/` is verified with Verus:

- `top_files`: the largest `k` files of a directory, and the top-k law.
- `model`, `tree`: directories and the tree of them, with its shape invariant.
- `totals`: what the byte counts of a tree mean, and the root law.
- `scanner`, `fs_adapter`: scan events and the decisions taken per directory entry.
- `session`: a scan in progress, as a state machine driven by events.
- `scan_store`: scans kept by id.
- `walk`, `view`, `snapshot`: depth-first views of a tree, children ordered by size.
- `treemap`: the canvas, and drawing boxes, labels and files on it.
- `layout`: the treemap of a whole tree: items placed largest first, each
  directory drawn inside its own block, used space beside free space.

`app/` holds the program around it: command-line arguments, reading
directories, worker threads, and the floating-point side of the treemap (the
share of space an item takes, and sizes written with one decimal), which the
library asks for through the `Proportions` trait.
