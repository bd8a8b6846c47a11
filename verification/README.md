# bark

A minimal, headless reference manager for BibTeX entries and the files that
go with them.

- `src/` is the verified library: reading BibTeX (entry headers, field values,
  splitting a file into entries), the rules of the reference service (what is
  stored for a new reference, how imports are counted, what an export writes,
  how a content location's kind is told) and the decisions of the command line
  (listing rows, opening attached content, choosing an import format).
- `app/` is the `bark` program: argument parsing, the SQLite database and the
  processes it starts.
- `tests/` runs the library on concrete inputs.
