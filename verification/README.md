# engine

The verified core of a MEGA folder downloader that preserves folder
structure. Given a MEGA folder link and the encrypted node listing, it
parses the link, unwraps node keys (AES-128-ECB), decrypts node names
(AES-128-CBC), de-duplicates sibling names that would collide on disk, and
rebuilds the folder tree with relative paths, sorted by path.

Layout:

- `src/` — the library, written and proved with Verus.
  - `mega/link.rs` — share-link parsing.
  - `mega/crypto.rs` — base64, AES-ECB key unwrapping, attribute decryption.
  - `mega/folder.rs` — node decoding and tree reconstruction.
  - `mega/names.rs` — collision keys and sibling-name de-duplication.
  - `mega/paths.rs` — relative paths along parent links, cycle-safe.
  - `mega/order.rs` — lexicographic order and stable sorting.
  - `realdebrid.rs`, `ws.rs`, `events.rs` — reply interpretation and the
    event stream's decisions.
  - `text.rs` — character-level helpers.
- `tests/` — executable tests against the compiled library.
- `app/` — the service around the library: HTTP calls to MEGA and
  Real-Debrid, SQLite, the WebSocket endpoint, and serde forms of the
  library's types.
