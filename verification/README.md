# language

A phonology toolkit for constructed languages, written in Verus: the
library is verified by Verus, its public functions state what they return
in contracts, and a few calls into outside crates (JSON parsing, Unicode
normalization, base62 and UUIDs) are trusted at their stated contracts.

- `src/` is the verified library: IPA symbol systems and strings, phoneme
  sequences and their text form, syllabification, stress placement,
  phonotactic rules, sound patterns (parser and matcher; the sound-change
  engine that would apply them is not part of this crate), language
  configuration checks (including cycle detection among sound classes and
  word generators), word generation from supplied draws, and the dictionary
  with its lookup and listing.
- `tests/` runs the library on concrete values.
- `app/` is the command-line program around the library: argument parsing,
  files, JSON documents, random draws and printing. Documents are read
  structurally; no JSON schema is checked, and the sound-change commands
  report that the engine is unavailable.
