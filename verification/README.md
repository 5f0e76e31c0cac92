# parallel_file_processor

A parallel text-file processor: it walks directories, analyzes each file
(size, lines, words, character frequencies) on a thread pool, shows
progress, can be cancelled, and records finished files so that a later
run can resume. A few small exercises come with it (number analysis, a
guessing game, a student record and a book catalogue line format).

## Layout

- `src/` — the library, verified with Verus: text counting, decimal
  numbers, decoding, the analyzers and the processing of one file's
  bytes, the progress state and the resume file format, the directory
  walk as a state machine, the command line, the report text and the
  exercises. The public functions state their results in `ensures`
  (reading the shared cancellation flag, whose value another thread sets,
  is the one read whose value is left open); the laws that span functions
  are public proof functions (`lemma_*`).
- `app/` — the program around it: argument reading, the file system, the
  thread pool, the progress printer and the cancellation listener.
- `tests/` — tests of the library on concrete values.

## Run

```bash
parallel_file_processor --dir books --threads 8 --out report.txt
parallel_file_processor --dir books --resume --progress-file progress.tsv
```

While running, type `c` then Enter to cancel.
