//! The networking core of a small multiplayer game, with its contracts: bit-level packing of
//! values, LEB128 integers and a byte-stream deserializer, the protocol's messages, packets that
//! split and reassemble payloads, the connection handshake and receive window, and the rules
//! and bookkeeping that the client and server build on them.
pub mod bits;
pub mod rabbit;
pub mod write;
pub mod read;
pub mod vlq;
pub mod error;
pub mod leb128;
pub mod de;
pub mod packet;
pub mod raw_packet;
pub mod connection;
pub mod socket_error;
pub mod variant;
pub mod protocol;
pub mod resources;
pub mod log_filter;
pub mod game_rules;
pub mod client;
