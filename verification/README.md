# ccdu

A terminal disk-usage analyzer that stages changes into a reviewable plan and commits them under an
append-only journal, so that a commit can be paused, resumed, and survives a crash.

- `src/` is the library, in Verus: every item is verified. It holds the tree and how it grows, the
  rules of a scan, the search for duplicates, plans and what is wrong with them, the executor as
  machines that say what to do next, the journal, both export formats, the wire protocol and both
  its ends, and the browser: its state, its keys and the text it shows.
- `tests/` runs the library against disks made of maps.
- `app/` is ordinary Rust around it: the command line, system calls, threads, ssh, the terminal, and
  how the library's types are written down as JSON and TOML.

What is destroyed is decided in `src/exec`. Its laws say that nothing is deleted or moved but what
was staged, that every step is recorded before it is taken, that a source goes last, and that a
commit which was interrupted anywhere, however often, leaves in the end what one that never was
leaves: every operation done, none failed, and no byte counted twice (`src/exec/run/resume.rs`). That
last one is said of a plan that can be carried out on the disk it is committed on, and of a disk that
nobody else writes to meanwhile.
