# timetracker

`tt`, a personal time tracker for the terminal, with an agent layer that marks
phases of work, audits agent activity against what was logged, and dismisses
stretches that were not work.

The rules of the tracker live in `src/` as a library whose functions carry
contracts proved by Verus: the store and its entries, tags and projects, idle
intervals and trimming, the duration format, phase marks and their leases, the
dismissal ledger, the audit of unaccounted activity, the report rollup, shell
completions, and the screen's own rules: its columns, the entries table's rows
with an issue's entries folded under one header, the Projects and Tags panes with
their focus ring, the key legend, and the heat buckets behind the summary. Proof functions
named `lemma_*` that are public state the library's laws. The calls into chrono,
ratatui and std that the library makes go through small wrappers marked
`external_body`: their contracts are believed, not proved, and each says in its
doc comment what it claims of the outside function.

`app/` is the command line around it: argument parsing, the JSON store on disk and
its lock, the mark and dismissal directories, and printing.

Times are unix seconds throughout the library; what the wall clock shows for an
instant depends on the machine's time zone, so contracts that print one say what
holds of any reading.

The interactive screen, `tt tui`, is not part of this crate yet: the library holds
its rules (the row model, panes, legend, heat buckets, the key handling, the
entries table's cells, the marks surface's lines, the heat grid's lines, the
summary table and the column picker's rows), but no binary draws it.
