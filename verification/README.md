# rpfm_extensions: verified text search and replace

Searching the lines of a text file for a plain pattern (case-sensitive or not)
or a regular expression, recording each match by row, byte column and byte
length, and replacing matches in the text. Written in Verus: each function has
a contract over a mathematical model of the text (its UTF-8 bytes and lines),
and Verus proves the code against it.

Modules of `src/`:

- `utf8_facts`: facts about character boundaries of UTF-8 encodings.
- `lines`: the lines of a text as `str::lines` yields them, and joining lines.
- `find`: finding a pattern in bytes; lower-casing.
- `matching`: plain or regular-expression matching (the `regex` crate).
- `text`: `Text`, `TextMatches`, `TextMatch`, the search and the replacement.
- `occurrences`: replacing every occurrence of a pattern from left to right,
  as `str::replace` does.
- `laws`: what holds of every search and of replacing what it found.
