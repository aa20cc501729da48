# nkgrep

Ranked trigram code search: an index of a tree narrows a query to the files that can
match it, the candidates are searched for real, and hits come out best first. A daemon
can hold the index and answer over a socket with the bytes that a local search shows.

`src/` is the library, verified with Verus. `app/` is the program around it: arguments,
files, sockets, threads and floating-point scores. `tests/` runs the library.

## Layout

- Index: `grams` (trigrams and what a pattern requires), `index` (building and
  checking), `codec` (the binary form), `load` (taking a stored index into use),
  `prefilter` (merges of posting lists), `rank` (candidates and their order).
- Search: `patterns`, `matcher`, `lines`, `hits`, `topk` (stopping early), `walk`
  (which files a traversal visits).
- Output: `emit`, `context`, `render`, `counts`.
- Daemon and client: `serve`, `served`, `client`, `sidecar`, `fdcache`.
- Command line: `cli`, `invoke`.
- Helpers: `order`, `paths`, `text`.

## What is proved across modules

- `soundness`: a file that a query can match is a candidate, so a search of the
  candidates finds what a scan finds. `grams` decides which patterns are looked up by
  trigrams: characters, escapes of two characters, character properties (`\p{..}`),
  classes whose only inner brackets are those of named classes (`[[:alpha:]_]`), groups,
  alternation and `+`. `shape` proves that such a pattern is read as its parts say, so
  that the trigrams it requires lie in every match. Every other pattern is scanned. A
  UTF-16 file is searched decoded and is always a candidate.
- `matcher` and `hits`: a plain and an inverted search share the lines of a buffer out.
- `topk`: a search that stops early ranks the same first `k` hits.
- `codec`: a written index reads back, equal indexes have equal bytes, and an index that
  was cut short is refused.
- `client`: what a daemon writes is read back line by line, whatever paths, texts and
  reasons say.
- `agreement` and `served`: text, context and counts of a served query are those of a
  local one.
- `replies`: a reply for fewer hits is the front of the full one, and a reply for part
  of the tree is that part of the whole one.
- `fdcache`: a read through held files goes to the file that the path names.

Scores are floating point and live in `app/`. The library orders by keys: unsigned
numbers that are larger where the score is better.

What is taken from other crates without proof is marked `external_body` or
`assume_specification`, each with a comment that says what is claimed of it.
