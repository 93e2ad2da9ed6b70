//! A chat relay's core: the message type, its wire format, the reader that
//! cuts a byte stream into messages, the registry of live connections, the
//! router's inbound queue and fan-out, and what a client does with what it
//! receives and what its user types.
pub mod client;
pub mod codec;
pub mod message;
pub mod registry;
pub mod router;
pub mod stream;
