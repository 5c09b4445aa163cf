# pathbin

`pathbin` inspects the executables reachable through a search list (`PATH`,
or Homebrew's `bin` and `sbin` directories with `--homebrew`): it lists them,
finds the one a name runs, and reports duplicates, shadowed binaries, broken
entries and statistics. Search lists, file names and executability follow the
platform: Unix (`:`, execute bits), Windows (`;` with quoting, `\` and `/`,
executable extensions) or another platform (`:`, any regular file).

The library under `src/` is verified with Verus:

- `cli` reads the command line into the action it asks for;
- `scanner` splits search lists, names files, and classifies what the file
  system reports about entries and directory items, per platform;
- `search` turns what was found at every entry of a search list into a scan;
- `model` records a scan and indexes its binaries by name, in search-list
  order, each path once;
- `commands` computes what each command prints and its exit code;
- `output` renders names and paths (raw bytes) for display, escaping control
  characters and bytes that are not UTF-8;
- `bytes` holds the byte-string order and comparisons the index uses.

`app/` is the program around it: it reads arguments and the environment,
queries the file system, and writes the lines the library returns.
