# find-empty-folders

Locates empty folders or duplicate files under the given directories and
writes a script (`delemptyfolders.sh` / `deleteduplicates.sh`, or `.cmd` on
Windows) that deletes them. Nothing is deleted by the tool itself: the script
can be reviewed before it is run. In a duplicate script, the file of each group
that was read most recently is kept (its line is commented out).

The logic is a library verified with Verus; the command around it is plain
Rust.

- `src/` — the verified library
  - `reclaim.rs`: the search state; the first pass (files bucketed by size),
    the second pass (files grouped by SHA-256 of their contents, single files
    dropped), and the search for empty folders
  - `bucket.rs`: the second pass over one bucket and over all of them, and
    what it leaves: the groups, the duplicates counted and the space to
    reclaim
  - `groups.rs`: the groups of files keyed by digest, with distinct keys
  - `report.rs`: the deletion scripts, the duplicate report and the summaries
  - `order.rs`: the stable ordering of a group by access age
  - `script.rs`: the script statements for POSIX shells and Windows
  - `filetype.rs`, `counts.rs`, `jsontypes.rs`: counts of duplicates by
    extension and category, and the extension table read from JSON
  - `digest.rs`: SHA-256 (through `ring`) and the decimal text of a digest
    (through `num256`)
  - `cli.rs`: option checks and the parsing of `--dup_minsize`
  - `text.rs`: decimal text of numbers
  - `smachine.rs`: a small state machine with a table of handlers
- `app/main.rs` — the command: argument parsing (`clap`), the directory walk
  (`walkdir`), file reading, the progress spinner (`indicatif`), writing the
  scripts and printing
- `tests/` — tests of the library
