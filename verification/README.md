# lab_checker

Checks students' lab programs: pulls their repositories, builds and runs the
programs against the tests of their variant, judges the answers, looks for
programs that are alike, and reports the result as a comment on the
student's latest commit.

- `src/` is the library, verified with Verus: the decisions and the parsing
  (judging a test, the order of a check, which repositories changed, the
  similarity index, the `diff -n` count, addresses and paths).
- `app/` is the program around it: processes, files, HTTP, mail, logging and
  the main loop. It hands the library plain values (`ProcessOutcome`, bytes,
  strings) and acts on what comes back.
- `tests/` runs the library on concrete values.
