# dsh_launcher

The verified core of the DSH desktop launcher: the configuration model and its
repairs, HOME/version/instance bookkeeping, profile patch-document editing,
plugin and pnpm workspace files, the DSH command lines and environments the
launcher spawns, the running-instance registry, background task bookkeeping
and toolchain decisions.

Layout:

- `src/` — the library, written in Verus. Every public function carries a
  contract over spec-level models (`Seq<char>` text, views of each record
  type); laws that span several functions are public proof functions named
  `lemma_*`.
- `tests/` — executable tests of the library.
- `app/` — the Tauri shell around the library: commands, file and process
  I/O, HTTP, JSON/YAML parsing into the library's document model.
