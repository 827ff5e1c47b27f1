# nago-http

A small HTTP/1.1 client over nagoya and nago-rustls, whose logic is verified with Verus. It is for
the outbound calls a backend makes to someone else's API: one request per connection,
`Content-Length` or `chunked` bodies, and nothing else.

## Layout

- `src/` is the verified library. It touches no socket: it reads URLs, writes requests, decides step
  by step what to do with a connection, and reads responses. Every function states exactly what it
  returns, and none of them panics.
  - `sequence`, `encoding`, `text`, `number`: finding, splitting, trimming, comparing and reading
    text, stated over characters and carried out on UTF-8 bytes.
  - `url`, `request`, `response`, `error`: what is sent, what is answered, and what can go wrong.
  - `target`, `tls`: a resolved host, and the name by which a TLS session knows it.
  - `call`: one request over one connection, as a machine from events to actions.
  - `client`: the hosts a client has resolved, and the request a URL stands for.
  - `laws`: what holds of the library as a whole.
- `app/` holds the sockets, the TLS sessions and the reactor around it: `Target::resolve`, `send` and
  `Client`.
- `tests/` runs the library.

## Dependencies

`nagoya` is the reactor and `nago-rustls` the TLS. `rustls` is named only to switch on its `ring`
provider, which the client installs and which nago-rustls leaves off; it is reached through
`nago_rustls::rustls`.

## What is trusted

- `response::utf8_text`: `core::str::from_utf8` accepts exactly the valid encodings and decodes them.
- `tls::try_server_name`: the result of `ServerName::try_from` depends on the host alone.
- `nagoya::reactor::Addr` and `rustls_pki_types::ServerName` are carried through unopened.
