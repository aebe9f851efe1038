# lib — verified path handling for an ELF loader

Byte paths and dynamic library search directories, specified and proved
with Verus.

- `src/path.rs` — `PathStr`, `PathString`, `Path`, `PathBuf`: byte views and
  buffers, `parent`, `file_name`, `join`, absolute-path tests, and laws on how
  they fit together.
- `src/expand.rs` — `$ORIGIN`, `$LIB` and `$PLATFORM` expansion
  (`PathTokens::expand`, `token_len`) against the spec `expansion`, and the
  normal form of search directories.
- `src/search.rs` — splitting `DT_RUNPATH`/`DT_RPATH` values (`expand_dirs`,
  `normalize_dir`), the directory pool that shares directories between
  modules (`SearchPathPool`), and per-module metadata (`ModuleSearch`).
- `src/dir.rs` — `SharedDir`: a reference-counted directory with an atomic
  status flag.
- `app/lib.rs` — host helpers: borrowing `OsStr`/`std::path::Path` values as
  loader paths and formatting paths for diagnostics.
- `tests/` — runtime tests.
