# Blast

Agents working in one repository see each other and learn what they broke, in
files they never opened, with no server, no account and no model in the loop.

Agents announce themselves to each other through a shared directory, and every
edit is checked against the call graph of everything that depends on it.

## Layout

- `src/` is the library, verified with Verus: parsing source into symbols and
  edges, resolving edges across files, walking callers backwards, picking the
  tests to run and reading what they said, the records of the room, the answers
  to the harness, the merge into its settings, typed edits on source, and the
  integer half of clustering.
- `app/` is the program around it: files, processes, the clock, and the floating
  point of clustering.
- `tests/` run the library with the real grammars.

## What is proved

Every function states in its contract what it returns. The functions named
`law_...` state what holds of the library as a whole: nothing is invented in the
graph, every caller within reach is found and each once, what is installed in
the settings comes out again and nothing else with it, a refused edit refuses
its batch, two batches one after the other come to what one of all their ops
does, ops that look at different files commute, an op comes back with the files
it changed alone, every change of a file is made where the file has its range,
unless a larger one replaces it, a test run that says a thing twice says it
once, a record reads back as it was written, and a stale one is nobody.

## What is trusted

The grammars and the walk of the trees they make (`tree`), the digest
(`engine`), the printing of JSON (`hook`), and the table behind lower case
(`text`). Each such function is a few lines, and its comment says
what is taken on trust.
