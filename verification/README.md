# my-redis

RESP frames for a small Redis-like server, verified with Verus.

- `src/wire.rs`: the byte-level model: what the reader does with a byte
  sequence from a position (`check_at`, `read_at`), and what the writer sends
  for a frame (`frame_bytes`).
- `src/frame.rs`: `Frame`, `Error`, and the reader (`Frame::check`,
  `Frame::read_frame`, and their total forms `scan_check`, `scan_frame`).
- `src/cursor.rs`: a read position over a byte slice.
- `src/decimal.rs`: decimal numbers, read with the `atoi` crate and written
  by the library.
- `src/connection.rs`: the buffers of a connection, the writer, and the
  decisions of the loop that reads frames from a stream.
- `src/db.rs`: the key-value store behind the server.
- `src/laws.rs`: proved laws: the RESP encoding of any canonical frame
  (nested arrays, `$-1` nulls included) and what the writer writes read back
  as the frame; a frame cut short is incomplete; bytes after a decided check
  or a read change nothing; what is read does not depend on how the bytes
  are split into reads.
- `app/lib.rs`: the TCP side, with tokio.
