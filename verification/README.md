# YinYang

The core of a versioned filesystem over object storage, written and verified with Verus.

- `src/` is the library. Every function states what it returns or changes, and every law that
  relates several functions is a public proof function beside them.
  - Filesystem: `identity`, `path`, `filesystem`, `tree`, `succession`, `version`, `publication`.
  - Stored form: `codec`, `wire`, `persistence`, `objects`, `hash`.
  - File data: `extents`, `runs`, `layers`, `restore`, `batches`, `segments`, `streams`, `upload`.
  - Namespaces and volumes: `model`, `namespace`, `changes`, `views`, `assembly`, `commits`,
    `authority`, `volume`, `collection`.
  - Local work: `order`, `ordered`, `work`, `spool`, `text`, `error`.
  - Synchronization: `replica`, `input`, `scan`, `renames`, `paths`, `threeway`, `reconcile`,
    `plan`, `engine`, `install`.
- `app/` is ordinary Rust around the library: OpenDAL storage, the local filesystem and the
  asynchronous loops that carry out what the library decides.
- `tests/` runs the library with the crates that it calls.

What is trusted rather than proved is marked `Trusted:` in a doc comment: BLAKE3 hashing,
Unicode normalization and case folding, random identities, UTF-8 decoding, and the debug form of
a list of texts.
