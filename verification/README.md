# rbit

The core of a small BitTorrent client, verified with Verus.

- `src/value.rs` — the mathematical model of bencode values; dictionaries are
  sequences of entries in ascending key order.
- `src/number.rs`, `src/bytes.rs`, `src/text.rs` — decimal digits, byte-string
  order and comparison, UTF-8 text.
- `src/data_type.rs` — `DataType` and its dictionary `Dict`, with their views.
- `src/parser.rs`, `src/decoder.rs` — the parser, specified byte by byte.
- `src/encoder.rs` — the encoder.
- `src/laws.rs` — decoding the encoding of a well-formed value gives it back,
  whatever follows; decoded values are well-formed. A value is well-formed
  when its dictionaries keep their keys in ascending order (every `Dict` does)
  and its byte strings are at most `i64::MAX` bytes long; `encode` states the
  round trip for every `DataType` whose byte strings fit.
- `src/display.rs` — the text form of values.
- `src/torrent.rs`, `src/peer_wire_protocol.rs`, `src/request_sender.rs` —
  meta-info queries, info hash, peer lists, wire messages, tracker URL.
- `app/` — the program: files, HTTP and TCP.
