# deepseek_tui

Two parts of a terminal client for language models, verified with Verus.

**Full-project injection.** A `.agentsee` file at the root of a workspace says, in
gitignore syntax, which files to include (`!` excludes). `/inject-full-codes` puts
the selected files into the conversation as `read_file` calls with their results,
within a token budget; `/full-codes-tokens` estimates the tokens without changing
the conversation.

**The log of API calls.** Each request and its response become one new YAML file,
if logging is on. The directory keeps the newest 200 files.

## Layout

- `src/` is the verified library.
  - `text`, `number`, `order`: text, decimal numbers, orderings and sorting
  - `pattern`, `matching`, `agentsee`: patterns, globs and the include filter
  - `workspace`, `plan`: which files are selected, and which fit in a budget
  - `conversation`, `inject`: the application and the two commands
  - `clock`, `api_log`: instants of the calendar, and the log
- `tests/` runs the library.
- `app/` reads the file system, the environment and the clock around it.

The library trusts the `glob` crate for matching (`matching`), the `chrono` crate
for the clock and its texts (`clock`), and `String::push` (`text`). The doc
comments of those items say what is claimed of each.
