# mdbook-summarizer

Generates an mdBook `SUMMARY.md` from a source tree. The library in `src/`
holds every rule of the tool; each of its functions has a contract proved by
Verus, except the four small wrappers in `src/unicode.rs`, whose contracts are
trusted (they call `std` for whitespace, lowercase and uppercase, and to push
a character onto a `String`):

- `cli` — the command line (`--src`, `-o/--output`, `--auto-readme`,
  `--dry-run`, `--check`, `-h`, `-V`);
- `filter` — which directories are scanned and which files are pages;
- `natural`, `scan`, `listing` — natural ordering of names, the order of a
  directory listing (directories first, stable), what becomes of each item and
  which file is a directory's index page;
- `title` — cleaning headings, finding a page's first level-one heading, and
  the title-cased fallback made from a file name;
- `summary` — entries, paths relative to the source directory, the text of
  `SUMMARY.md`, and what to do with the output file;
- `text`, `unicode` — character helpers and the few calls into `std`'s
  Unicode tables.

`app/main.rs` reads the file system, asks the library what to do, and writes
the results. `tests/` exercises the library on concrete values.
