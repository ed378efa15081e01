# express

A small express-style HTTP server whose request handling is verified with Verus.

- `src/` is the verified library: cutting the endpoint out of the bytes a client
  sent (`request_line`), matching endpoints against registered patterns (`route`),
  reading endpoint parameters (`param`, `request`), the routing state and the
  dispatch decision for each request (`app`), the bytes of responses (`response`),
  and a simpler form of the server in which `SET` takes the place of `POST` and
  every segment is a text parameter (`basic`). `text` and `table` hold the string
  and keyed-table helpers the rest is built on.
- `app/` is the program around it: the TCP accept loop, the worker threads, file
  reads and socket writes, and the handlers, which are closures.
- `tests/` runs the library on concrete requests.
