# http_server

A small HTTP/1.1 server whose request handling is specified and verified with
Verus; what gzip compression produces is taken from `flate2` on trust.

- `src/` is the verified library:
  - `text`: line, word and separator splitting, trimming, decimal numbers
    and UTF-8 lengths over character sequences;
  - `headers`: a map of header fields that keeps their order;
  - `parser`: reading a request from the bytes of a connection;
  - `encoding`: gzip content encoding (through `flate2`);
  - `router`: responses, their rendering to bytes, and route matching;
  - `server`: which requests keep their connection open, and what one
    read from a connection leads to (stop, or a parsed and dispatched
    request);
  - `handlers`: the server's route table and the answers of its routes.
- `app/` is the program around it: the listener, the worker threads, the
  connection loop, file access and the command line (`--directory <dir>`).
- `tests/` exercises the library on concrete requests.
