# steam_downgrader

The core of a desktop tool that rolls a Steam game back to an older build and
lets the user play it: reading and writing Valve's text and binary VDF files,
building a dated list of a game's builds, resolving the manifests of "the
version before" a date, applying and undoing a downgrade, the community
archive's bookkeeping, the rollback library and the settings.

- `src/` is the library, verified with Verus: every function carries a
  contract, and the properties that span several functions are stated and
  proved as proof functions next to them (for example that a written
  `shortcuts.vdf` reads back as written, that undoing a separate copy takes
  out the shortcut that applying added, or that archive manifests are sent
  once).
- `tests/` runs the library on concrete values.
- `app/` is the command layer around it: files, the Steam helper process and
  the network. It hands everything that is decided or computed to the library.

Check the library with `verus`, run the tests with `cargo test`.
