# nonos_chat

The chat capsule for NONOS: an OpenAI-compatible HTTPS chat client in a native
window. The library under `src/` holds its logic, verified with Verus:

- `protocol`: the API base URL parser, the HTTP request builder, the HTTP reply
  reader (fixed length, chunked, or one JSON value) and the text shown for a reply.
- `transport`: one request as a state machine from connect to the encrypted reply,
  with its size bounds and deadlines; the sockets and TLS are the caller's.
- `chat`: the window's fields, conversation, scroll position and the request in
  flight, and what each key, click, wheel turn and finished request does.
- `json`, `text`: the JSON tree the answers are read from, and the character and
  byte helpers (trimming, searching, number parsing) the others share.
- `virtqueue_layout`: the legacy VirtIO split-queue geometry for device-reported
  queue sizes.

`app/` is the capsule around it: the window toolkit, keyboard map, clipboard,
sockets and TLS engine of NONOS, which drive the library.

Verify with Verus; the tests under `tests/` run the library with `serde_json`
and `zeroize` linked.
