# kuntu-scan

Disk-usage scanning, cleanup planning and discovery of repositories with uncommitted changes, as a
library whose behaviour is stated in contracts and proved with Verus.

The library never touches the file system. A scan, a measurement, a search or a removal is a value
that names the one observation it waits for: what is found under a path, the entries of a directory,
the text of an ignore file, a look at the cancel flag and the clock, the removal of a path. The answer
carries it on to its next state. What each answer does is the contract of the method that takes it,
and what a whole walk comes to in a file system that holds still is proved from those contracts.

- `src/` is the library. `lib.rs` lists its modules.
- `tests/` drives whole walks over a file system in memory, and tests the parts.
- `app/` drives the walks over the file system of the machine, looking up the entries of a directory
  on several threads, shares the cancel flag and the counters of a scan with those who watch it, and
  gives the library's values the traits of serde.

A few functions of std and of the `ignore` crate are called behind functions whose contracts are
believed without proof; each says in its comment what it claims. They stand in `text.rs`, `paths.rs`
and `rules.rs`.
