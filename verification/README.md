# rabbit_net

The networking core of a small multiplayer game, written in Verus with its contracts proved.

- `bits`, `write`, `read`, `vlq`, `variant`, `rabbit`: packing values into bit streams — bit
  writers and readers, the variable-length integer format, enum variant indices, and the
  `PackBits` / `UnpackBits` traits with their implementations and round-trip laws.
- `leb128`, `error`, `de`: the byte-level protocol encoding — LEB128 integers and a cursor
  that reads the primitives a deserializer is built from.
- `protocol`: the messages exchanged by clients and the server that hold no floating-point
  values, and how they are packed.
- `packet`, `raw_packet`, `connection`, `socket_error`: packets and headers, splitting
  payloads into chunks and reassembling them in any order, the connection handshake, and the
  window of sequences a connection reassembles.
- `client`, `log_filter`, `game_rules`, `resources`: the response channels of the client, the
  logger options, the rules that decide player ids and winners, and world resources.

`app/` holds what cannot be verified here: serde's deserializer front end, the messages that
carry floating-point values, the asynchronous UDP driver, and the tile map.
