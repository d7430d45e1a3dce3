# mender

Failure triage for build and test output: the library reads the output of
Rust, TypeScript, Python and Go tools line by line, recognises error lines,
pairs errors with their location markers, clusters them by likely root cause
and proposes an order in which to fix them.

Layout:

- `src/text.rs` — characters, runs, decimal numbers, line splitting, trimming.
- `src/parse.rs` — the line grammar and `parse_errors`, with its laws.
- `src/triage.rs` — merging, clustering, ordering, fix order, `triage`, with its laws.
- `src/report.rs` — from output to triage, and the text of reports.
- `src/cli.rs`, `src/error.rs` — the command line and the error type.
- `app/` — the `mender` program: argument parsing, I/O, JSON output.

Every function in `src/` is verified with Verus against its contract,
except four small trusted wrappers in `src/text.rs` that call outside code:
`String::push`, `str::to_lowercase`, and the regex crate's classes `\d` and
`\w` for characters outside ASCII. Their contracts are believed, not proved.
