# sizes

A directory size analyzer. It scans a directory tree, computes recursive
directory sizes, writes the rows of a report split into parts of bounded size
(JSONL, CSV, Markdown or text), and writes machine and human summaries.

- `src/` is the library, verified with Verus: size parsing and formatting
  (`human`), settings (`config`), the largest-entries table (`top`), report
  rows and the part splitter (`report`), the scan as a state machine
  (`scanner`, with `scan_model` describing what each step produces),
  summaries (`summary`), progress lines (`progress`) and error log lines
  (`error_log`). `text` and `num` hold the character and arithmetic
  helpers they share.
- `app/` is the program around it: command-line parsing, the file system,
  the clock, Ctrl+C, terminal output and the JSON documents.
- `tests/` exercise the library.
