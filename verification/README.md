# securenote

A local-first, end-to-end encrypted notes core whose functions carry proved
contracts.

- `src/` is the library. Its functions are proved against their contracts,
  but for a few small wrappers around outside code (the AEAD, HKDF, SHA-256,
  the OS random source, serde_json's parser and the conversion of its
  `Value` into the library's `JsonValue`, std's `String::from_utf8`) whose
  contracts are trusted:
  - `envelope`, `wire`, `json`: content-addressed operation envelopes, their
    canonical JSON bytes and the parser that reads them back;
  - `json_value`, `envelope_json`: JSON documents as plain values, and
    envelopes read from any JSON spelling of them;
  - `causal`, `document`: deterministic, order-independent replay of an
    operation set into documents and blocks (conflicts kept, removals
    tombstoned);
  - `crypto`, `hex`, `text`: XChaCha20-Poly1305 sealing, HKDF key derivation,
    hex lines;
  - `store`: the encrypted append-only op log and the ack log, read back line
    by line, with the outbox derived from their difference;
  - `server`: the decisions of the zero-knowledge sync relay;
  - `cli`: the `ssn` commands over a home directory held as text.
- `app/` is the binary around it: file, clock, environment and socket I/O.
- `tests/` runs the library on concrete values.
