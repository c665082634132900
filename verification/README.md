# todo_tui

The logic of a todo.txt terminal client, written in Verus: parsing task
lines, `t:` thresholds and `due:` search terms, the list filters and sorts,
the due-date buckets, the project/context/saved-search pickers and the
header text. Each public function states what it returns or changes as a
contract over mathematical models (`Seq<char>` for text, day numbers for
dates), and the properties that span several calls stand as proof
functions (`law_*`).

Layout:

- `src/` — the verified library. Calendar arithmetic goes to `chrono`
  through a few trusted wrappers in `src/dates.rs`.
- `tests/` — tests on concrete values.
- `app/` — a small command-line front end: reads a todo.txt file, prints
  the header (drawn with `ratatui`) and the task list grouped by due bucket.
