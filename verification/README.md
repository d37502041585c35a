# Xray

The core of a collaborative text editor, with its behaviour stated in contracts and
proved by Verus.

- `src/text.rs`, `src/utf16.rs`, `src/point.rs`: texts as UTF-16 code units, their rows,
  and positions in them.
- `src/buffer.rs`, `src/movement.rs`: open texts with their selections, and the ways to
  move through them.
- `src/views/`: what a user does in a view of a buffer or of a workspace, and what the
  view shows.
- `src/fs.rs`, `src/work_tree.rs`, `src/project.rs`, `src/workspace.rs`: trees of files,
  and what is made of them.
- `src/path_search.rs`, `src/fuzzy.rs`: the search for files by their path.
- `src/network.rs`, `src/git.rs`, `src/storage.rs`, `src/change_observer.rs`,
  `src/notify_cell.rs`: who is told of what.
- `src/app.rs`, `src/server/`: the application, and the server that clients talk to.

`app/` is what surrounds the library: sockets, repositories, JSON, and measures in
floating point numbers. Its `host` module names what it needs from a tree of replicated
texts, from remote procedure calls and from windows.
