# tapir-code

`tp`, a headless, one-shot coding-agent command line: it assembles one prompt
from piped stdin, `@file` references and the message words, runs it against a
model with four coding tools (`read`, `edit`, `write`, `bash`), streams the
reply to stdout and tool activity to stderr, and exits.

## Layout

- `src/` — the library, verified with Verus: prompt assembly, the run's
  decisions (credentials, the event-by-event handling of the reply, the
  tool-iteration cap), and the logic of each tool (windowed reads, exact and
  unique edits, tail truncation of command output, workspace confinement of
  paths). Each public function states its result exactly in its `ensures`;
  the laws that span functions are public proof functions (`lemma_*`).
- `tests/` — tests of the library on concrete values.
- `app/` — the program around it: argument parsing, the file system, stdin,
  child processes, and the agent SDK.
