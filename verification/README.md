# mapping_serde

Reading and writing Java deobfuscation mapping files — Enigma, ProGuard, Tiny V1 and Tiny V2 —
as a tree of mapping elements (classes, fields, methods, parameters, local variables,
comments), verified with Verus.

- `src/` is the library. `io` and `cursor` read a byte slice line by line and column by column;
  `enigma`, `proguard`, `tiny1` and `tiny2` read and write each format, every reader described
  by a spec function over the bytes and every writer by the bytes it appends.
  `enigma_roundtrip`, `tiny1_roundtrip` and `tiny2_roundtrip` prove that reading what a writer
  wrote gives back the elements, for elements whose names a column can hold.
  `escape`, `names`, `io::find_first`, `text::is_utf8` and `text::lossy_text` hold the calls into
  `fast_unescape`, `smallvec`, `memchr` and the standard library, whose contracts are trusted.
- `app/` reads from `std::io` sources and directories and writes to `std::io` sinks.
- `tests/` runs the readers and writers on concrete files.
