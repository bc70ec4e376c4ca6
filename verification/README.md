# coap_transport

CoAP transport: one request is one Stream, the resource path beside it;
confirmable requests acknowledged and retransmitted per RFC 7252, over UDP.

- `src/` is the library, verified with Verus: framing and reading datagrams,
  what each end of an exchange does next, and a Stream carried as POSTs in
  turn. It holds no socket.
- `app/` puts it on UDP sockets and makes it a `Transport`.
- `tests/` runs the library.

Beside the contracts of the functions, `src/round_trip.rs`, `src/both_ends.rs`,
`src/stream.rs`, `src/exchange.rs`, `src/options.rs` and `src/text.rs` prove
what holds of several of them together.
