# mem_store_rs

An in-memory key-value store with a small binary protocol, verified with Verus.

- `src/` is the verified library:
  - `store` — the store (keys are held at most once; adding a held key fails
    and keeps the first value);
  - `item` — the values (string, list, set, map) and their text form;
  - `collections` — the set and map values, which never hold a member or key twice;
  - `protocol` — packets, their byte encoding and decoding, and stream framing;
  - `server`, `client`, `api` — how requests are answered and responses read;
  - `text` — splitting, joining and trimming character sequences;
  - `error` — the error type and its messages.
- `app/` runs a TCP server and client against each other (tokio), and holds
  the HTTP routes (axum) over a shared store.
- `tests/` exercises the library on concrete values.
