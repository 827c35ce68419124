# sonion_protocol

The `sonion://` protocol — a small request/response protocol over TLS with ALPN
`sonion/1` — as a verified library, with the `sonion` command around it.

- `src/`: the library, proved with Verus. Every public function states what it returns
  over the mathematical models in its module; `laws.rs` and `url_laws.rs` prove what
  holds across functions (what is written reads back the same, decoding undoes
  encoding, canonical paths stay canonical).
  - `head.rs`, `request.rs`, `response.rs`: heads, headers, requests and responses,
    with bodies framed by length or in chunks.
  - `url.rs`: `sonion://` URLs and percent-encoded paths.
  - `client.rs`: what a fetch sends and when its reply is complete.
  - `server.rs`: which file a request names and which response each outcome gets.
  - `pem.rs`: the base64 text of PEM files, and base64 decoding.
  - `text.rs`, `unicode.rs`, `num.rs`, `wire.rs`: text, UTF-8 and number models.
- `tests/`: tests of the library.
- `app/`: the `sonion` command: sockets, TLS, files and processes, calling the library
  for every decision.
