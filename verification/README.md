# grabstuff

`grabstuff` selects local files with glob patterns, slices each one (the whole file, or its
first or last N lines or characters) and compiles the slices into Markdown, plain text or
JSON, written to standard output, a file or the clipboard. Queries can be saved as `.grab`
scripts.

The decisions are made in a library verified with Verus; a thin command-line program
around it does the I/O.

## Layout

- `src/` — the verified library.
  - `slicer.rs`: what each slice mode extracts from a file's bytes; a large file is split
    into lines as bytes for its last lines, and only those lines are decoded.
  - `slice_laws.rs`: what the slice modes give on well-formed text, stated over its
    characters and lines: the first and last lines and characters of the text, and head
    and tail slices that together give the whole text.
  - `formatter.rs`: the Markdown, plain and JSON layouts and the token estimate.
  - `grabfile.rs`: the grabfile syntax, its errors, and the compiled output of a grabfile.
  - `file_matcher.rs`: how a pattern splits into a directory and a glob, which paths the
    ignore patterns exclude, which files are too large or binary.
  - `paths.rs`: the order of paths, component by component, and the sorted, repeat-free
    list of matched files.
  - `config.rs`, `output.rs`, `cli.rs`: configuration precedence, output size and
    destination, the patterns of a query with the slice each is read with, and the exit
    status of the command line.
  - `text.rs`, `decode.rs`: text utilities and UTF-8 decoding.
- `app/` — the `grabstuff` program: argument parsing, configuration files, directory
  walking, file reading, output and the clipboard.
- `tests/` — tests of the library.
