# rudish

A key-value cache of topics, served over TCP with a small byte protocol.

- `src/` is the verified library: the cache (`cache.rs`), the reply frame
  (`frame.rs`), the request decoder (`protocol.rs`) and a session's handling of
  incoming bytes (`server.rs`). Each public function states what it returns or
  changes; the laws (read after write, first write wins, requests may arrive
  in any pieces, the layout of a reply frame) are proof functions beside them.
- `app/` is the server program: sockets, threads, the shared buffers between
  them, and the Ctrl+C handler.
- `tests/` runs the library on concrete requests.
