# logdeck

Reading the logs of Laravel projects: parsing them into entries, following them
as they grow, and keeping the registry of projects that are watched. The library
under `src/` is verified with Verus; it does no I/O. What it needs to know of the
file system is handed in, and what is to be done next is handed back.

- `header`, `parser`: a log's bytes into entries; `parser_laws`: what holds of
  them however a log is cut and terminated.
- `model`, `ids`: levels, identities, entries and breaks, and ids that are never
  used twice.
- `window`: the last entries of a file, found by reading backwards.
- `files`, `paths`: which logs there are, and which names may be opened.
- `watcher`, `watcher_model`, `watcher_laws`: following a file, through rotation,
  truncation and outages; `watchers`: one watcher for each project; `activity`,
  `sink`: what is counted and what is sent.
- `project`, `project_laws`, `registry`: registering folders, telling them apart
  by label, and when the registry may be written.
- `text`: the text and number functions the others are built on.

`app/` is the desktop application around it: files, threads, serialisation and
the window.
