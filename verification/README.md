# quicktag_cli

Bounded, machine-readable queries over the packages of a game and over the scan
data that was collected from them. Replies are JSON, one object per request.

- `src/` is the library, verified with Verus: hash notation, pages, byte ranges,
  request lines, dataset identities, listings, searches, references, and the
  session that decides which work a query needs before it can be answered.
- `app/` is the program around it: arguments, files, packages and JSON.
- `tests/` runs the library.

The library does no input or output. `Session::query` takes what happened last
and says what to do next; the program does it and reports back.
