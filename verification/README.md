# skagedal_tools

A handful of personal command-line tools whose logic is verified with Verus:

- **kontoutdrag**: reads bank statement exports (SEB CSV, Enable Banking
  JSON), identifies merchants from tables of rules, applies marks, and
  reports spending against a monthly budget.
- **git-branch-assistant**: lists branches across repositories, with their
  upstream state, and drives the pickers that choose what to do with them.
- **log-viewer**: a JSONL log viewer with a filtered, column-based list,
  a detail view, and a payload format for a web front end.
- **imessage**: prints a day's Messages conversations.
- **intellij-patch**: makes sure IntelliJ project files hold given XML
  children.
- **git-dirty-checker** and two small helpers.

## Layout

- `src/` is the verified library: every function there carries a contract
  that Verus proves. Calls into outside crates (serde_json, regex, chrono,
  console, xmltree) go through small trusted wrappers whose contracts say
  what those crates do, or name their results.
- `app/` is the program around it: argument parsing, files, processes,
  terminals and databases. It hands the library plain values.
- `tests/` runs the library on concrete inputs.
