# inscope

A command-line tool for audit scope: which paths of a code base are in scope
(IN), which are explicitly out of scope (OUT, which always wins over IN), and a
scope marker comment at the top of every in-scope file. The scope manifest is
`audit-scope.yml`.

The library in `src/` holds the logic and is verified with Verus:

- `text` — the character model: Unicode whitespace trimming, `str::lines`,
  joining lines, and the order of `String`.
- `paths` — Unix paths as sequences of components (`std::path` semantics):
  normalising, relativising to the working directory, ordering, extensions,
  ignored directories, and `FileSet`, an ordered set of file paths.
- `markers` — scope marker lines, the marker each file type takes, and adding
  and removing a marker; with the laws that adding marks a text, is
  idempotent, and is undone by removing.
- `entries` — the manifest: normalising entries, adding and removing them,
  exact conflicts and OUT-inside-IN overrides.
- `runs` — the per-file decisions of `annotate` and `sync`, the totals and
  summaries, collecting files from entries, and the `list` and `status`
  reports.

`app/main.rs` is the command-line program: argument parsing (clap), reading and
writing the manifest (serde_yaml), walking the disk and expanding globs (glob),
and reading and writing files. It hands plain values to the library and carries
out what the library decides.
