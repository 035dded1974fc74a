# unescape

Validation of the contents of char, byte, string and byte-string literals, and
their translation into the characters and bytes they denote, verified with Verus.

- `src/error.rs`, `src/mode.rs`: the error kinds and the kinds of literal.
- `src/spec.rs`: the mathematical model: how one (possibly escaped) character is
  scanned, how the contents of a string literal split into units with byte ranges,
  and what a char or byte literal denotes.
- `src/text.rs`: characters of a `&str`, UTF-8 widths and byte offsets.
- `src/scan.rs`: scanning of one character or escape.
- `src/unescape.rs`: the entry points for char, byte, string and byte-string literals.
- `src/laws.rs`, `src/escape.rs`: properties proved of the whole: ranges come in order,
  plain text and escaped characters stand for themselves, byte literals are ASCII
  char literals, and string contents split at line continuations, invalid escapes
  and carriage returns into parts read on their own.
- `app/`: callback-driven entry points over the library.
