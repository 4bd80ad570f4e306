# archivist

An encrypted, deduplicating, snapshot-based backup engine whose core is
verified with Verus.

- `src/` is the verified library:
  - `crypto/` — SHA-256 content identifiers (hex rendering proved),
    XChaCha20-Poly1305 encryption and Argon2 key derivation behind small
    trusted wrappers around the `sha2`, `chacha20poly1305`, `argon2` and
    `rand` crates.
  - `repo/` — object kinds, the sealed object format (nonce followed by
    ciphertext, opened only when the plaintext hashes to the identifier it is
    stored under), blobs, trees, snapshots, the on-disk layout, and creating
    and unlocking a repository's key material.
  - `text.rs` — UTF-8 decoding, trimming and decimal parsing of the plain-text
    files a repository keeps, and the byte order in which names sort.
  - `backup.rs` — the walks behind `backup`, `restore`, `snapshots` and
    `check`: each says what to read or write next and is told what happened.
  - `cli.rs` — the commands and the checks made before running one.
- `app/` is the program: argument parsing, password prompt, file-system I/O,
  CBOR encoding, and the loops that drive the library's walks.
- `tests/` exercises the library on concrete values.
