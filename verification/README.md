# claude_self

A verified linter for a seven-section self-description markdown file.

- `src/text.rs`: Unicode white space, trimming, and the split of a text into
  lines (line feed, with an optional carriage return before it), with laws on
  the number of lines and on a final line feed.
- `src/lint.rs`: the four lint rules as spec functions, `lint_contents` and its
  helpers, and the law that a report passes exactly when the four rules hold.
- `src/message.rs`: the diagnostic text of each violation.
- `app/main.rs`: the command-line program (files, environment, `git`, editor).
- `tests/`: the rule scenarios and exact results.
