# zeromasque

A **MASQUE / CONNECT-UDP** proxy and client (RFC 9298) whose decisions are
verified with Verus.

The forwarding target is pinned on the server: a rule table maps endpoints to
targets, and a request is matched on its `:authority` and path, with the query
ignored. The client is a local UDP proxy that opens one CONNECT-UDP flow for each
local source address.

## Layout

- `src/` is the verified library: framing (`varint`, `dgram`), endpoints and URI
  templates (`endpoint`, `template`, `authority`), the rule table (`rules`),
  request and response headers (`request`), the state and the decisions of the
  proxy (`server`, `flow`, `relay`, `addr`, `reload`), the probe and the local
  proxy (`client`, `tunnel`), batches of packets (`batch`), ECH key files (`ech`),
  timers (`timer`), and small helpers.
- `app/` is the program around it: the command line, sockets, TLS and QUIC, the
  JSON rule file, signals.
- `tests/` holds tests on concrete values.

The library does no I/O. An event of the outside world is one call, which updates
the state and says what to do; the program does it. Times are nanoseconds since an
instant that the program chooses.

## Trusted items

The proofs rest on the contracts of a few calls out of the library, each stated
at its wrapper: standard Base64 from `base64ct`, random bytes from `rand`, and
UTF-8 decoding, string growth and the copying of paths from the standard library.
