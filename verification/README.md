# tcp_to_http

An HTTP/1.1 request parser that works on raw bytes as they arrive from a TCP
stream, with the framing of the responses that the example server sends back,
proved correct with Verus.

- `src/` is the verified library:
  - `request` parses a request as its bytes arrive: the request line, the field
    lines and a body announced by Content-Length. `RequestReader` holds the
    bytes that wait for the rest of their line. Reading the stream in chunks
    and reading it in one piece agree (`lemma_parse_resumes`,
    `lemma_chunking_agrees`, and for two cuttings `lemma_two_chunkings_agree`) as long as no cut splits a UTF-8 character; the one
    difference is that bytes past a body completed by earlier chunks are refused
    only when they arrive together with it.
  - `headers` reads field lines, combines repeated fields with ',' and looks
    fields up whatever the case of their names.
  - `server` writes status lines, fields and bodies, chunked when the response
    asks for it; `handler` holds the routes of the example server; `lines`
    splits a stream into lines.
- `app/` holds the programs: the asynchronous server on port 42069, a request
  printer, a UDP sender and a line printer. They do the I/O and hand the bytes
  to the library.
- `tests/` runs the library on concrete requests.
