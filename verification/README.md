# asadoc

Asadoc (as-a-doc) keeps the code blocks of a documentation and the code of a
repository in sync. Comment markers in the repository's files say which code
belongs in the docs; asadoc compares that code with the blocks of the docs,
reports the blocks that nothing resolves, and proposes the changes that would
make code it finds match.

## Layout

- `src/` is the library, verified with Verus. Every function states what it
  returns. The calls into other crates stand in `engines.rs`, each with the
  contract it is trusted to meet.
- `app/` is the program: arguments, files, git, the review server, and the
  similarity scores, which are floating point.
- `tests/` runs the library on concrete values.

In `src/`, `markers`, `options` and `apply` read markers and apply their
options; `docs`, `repo`, `ignored` and `source` hold the sides that are
compared; `matching`, `candidates` and `eval` compare them; `lightbulb` and
`edits` work out and make changes; `report`, `check` and `server` say what was
found. What holds of several functions together is proved in the functions
named `law_`, many of them in the modules that end in `_laws`.
